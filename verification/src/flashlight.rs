//! The flashlight: the cone of tiles the player lights up, traced with
//! Bresenham lines that stop at the first wall.

use vstd::prelude::*;

use crate::entity::{abs_int, direction_delta, Direction, Position};
use crate::map::{grid_index, lemma_grid_index_bounds, lemma_grid_index_injective, TileMap, TileType, FLASHLIGHT_RADIUS};

verus! {

// ---------------------------------------------------------------------------
// Bresenham lines

/// The points Bresenham's algorithm visits from `(x, y)` with error term
/// `err` on its way to `end`, at most `fuel` of them.
pub open spec fn bresenham_from(
    end: Position,
    x: int,
    y: int,
    err: int,
    dx: int,
    dy: int,
    sx: int,
    sy: int,
    fuel: nat,
) -> Seq<Position>
    decreases fuel,
{
    if fuel == 0 {
        seq![]
    } else if x == end.x && y == end.y {
        seq![Position { x: x as i32, y: y as i32 }]
    } else {
        let e2 = 2 * err;
        let err1 = if e2 >= dy {
            err + dy
        } else {
            err
        };
        let x1 = if e2 >= dy {
            x + sx
        } else {
            x
        };
        let err2 = if e2 <= dx {
            err1 + dx
        } else {
            err1
        };
        let y1 = if e2 <= dx {
            y + sy
        } else {
            y
        };
        seq![Position { x: x as i32, y: y as i32 }] + bresenham_from(
            end,
            x1,
            y1,
            err2,
            dx,
            dy,
            sx,
            sy,
            (fuel - 1) as nat,
        )
    }
}

/// The integer line from `start` to `end`, both included.
pub open spec fn bresenham(start: Position, end: Position) -> Seq<Position> {
    let dx = abs_int(end.x - start.x);
    let dy = -abs_int(end.y - start.y);
    let sx = if start.x < end.x {
        1int
    } else {
        -1int
    };
    let sy = if start.y < end.y {
        1int
    } else {
        -1int
    };
    bresenham_from(end, start.x as int, start.y as int, dx + dy, dx, dy, sx, sy, (dx - dy + 1) as nat)
}

/// Lines short enough that the error term fits an `i32`.
pub open spec fn short_line(start: Position, end: Position) -> bool {
    &&& abs_int(end.x - start.x) <= 16384
    &&& abs_int(end.y - start.y) <= 16384
}

proof fn lemma_bresenham_step(dx: int, dy: int, u: int, v: int, err: int)
    requires
        0 <= dx <= 16384,
        -16384 <= dy <= 0,
        0 <= u <= dx,
        0 <= v <= -dy,
        !(u == dx && v == -dy),
        err == dx * (v + 1) + dy * (u + 1),
    ensures
        2 * err >= dy ==> u < dx,
        2 * err <= dx ==> v < -dy,
        2 * err >= dy || 2 * err <= dx,
        -600000000 <= err <= 600000000,
{
    assert(-600000000 <= err <= 600000000) by (nonlinear_arith)
        requires
            0 <= dx <= 16384,
            -16384 <= dy <= 0,
            0 <= u <= dx,
            0 <= v <= -dy,
            err == dx * (v + 1) + dy * (u + 1),
    ;
    if u == dx {
        assert(2 * err < dy) by (nonlinear_arith)
            requires
                u == dx,
                0 <= dx,
                dy < 0,
                v + 1 <= -dy,
                err == dx * (v + 1) + dy * (u + 1),
        ;
    }
    if v == -dy {
        assert(2 * err > dx) by (nonlinear_arith)
            requires
                v == -dy,
                0 <= u,
                u + 1 <= dx,
                dy <= 0,
                err == dx * (v + 1) + dy * (u + 1),
        ;
    }
}

/// The points of the line from `start` to `end`, both included.
pub fn bresenham_line(start: Position, end: Position) -> (points: Vec<Position>)
    requires
        short_line(start, end),
    ensures
        points@ == bresenham(start, end),
{
    let mut points: Vec<Position> = Vec::new();
    let mut x = start.x;
    let mut y = start.y;
    let dx: i32 = if end.x >= start.x {
        end.x - start.x
    } else {
        start.x - end.x
    };
    let dy: i32 = if end.y >= start.y {
        start.y - end.y
    } else {
        end.y - start.y
    };
    let sx: i32 = if start.x < end.x {
        1
    } else {
        -1
    };
    let sy: i32 = if start.y < end.y {
        1
    } else {
        -1
    };
    let mut err = dx + dy;
    let ghost mut u: int = 0;
    let ghost mut v: int = 0;
    let ghost total = bresenham(start, end);
    let ghost fuel0 = (dx - dy + 1) as nat;
    assert(err == dx * (v + 1) + dy * (u + 1)) by (nonlinear_arith)
        requires
            u == 0,
            v == 0,
            err == dx + dy,
    ;
    loop
        invariant_except_break
            points@.len() + (dx - u) + (-dy - v) + 1 <= fuel0,
            points@ + bresenham_from(end, x as int, y as int, err as int, dx as int, dy as int, sx as int, sy as int, (fuel0 - points@.len()) as nat) == total,
        invariant
            0 <= dx <= 16384,
            -16384 <= dy <= 0,
            dx == abs_int(end.x - start.x),
            dy == -abs_int(end.y - start.y),
            sx == (if start.x < end.x {
                1int
            } else {
                -1int
            }),
            sy == (if start.y < end.y {
                1int
            } else {
                -1int
            }),
            0 <= u <= dx,
            0 <= v <= -dy,
            x == (if sx == 1 {
                start.x + u
            } else {
                start.x - u
            }),
            y == (if sy == 1 {
                start.y + v
            } else {
                start.y - v
            }),
            err == dx * (v + 1) + dy * (u + 1),
            (x == end.x && y == end.y) <==> (u == dx && v == -dy),
            fuel0 == dx - dy + 1,
            total == bresenham(start, end),
        ensures
            points@ == total,
        decreases (dx - u) + (-dy - v),
    {
        let ghost f = (fuel0 - points@.len()) as nat;
        let ghost rest = bresenham_from(end, x as int, y as int, err as int, dx as int, dy as int, sx as int, sy as int, f);
        points.push(Position::new(x, y));
        if x == end.x && y == end.y {
            proof {
                assert(f >= 1);
                assert(rest == seq![Position { x: x, y: y }]);
                assert(points@ =~= total);
            }
            break;
        }
        proof {
            lemma_bresenham_step(dx as int, dy as int, u, v, err as int);
        }
        let ghost u0 = u;
        let ghost v0 = v;
        let ghost err0 = err as int;
        let e2 = 2 * err;
        if e2 >= dy {
            proof {
                if sx == 1 {
                    assert(x < end.x);
                } else {
                    assert(x > end.x);
                }
            }
            err = err + dy;
            x = x + sx;
            proof {
                u = u + 1;
            }
        }
        if e2 <= dx {
            proof {
                if sy == 1 {
                    assert(y < end.y);
                } else {
                    assert(y > end.y);
                }
            }
            err = err + dx;
            y = y + sy;
            proof {
                v = v + 1;
            }
        }
        proof {
            assert(sx == 1 || sx == -1);
            assert(sy == 1 || sy == -1);
            if sx == 1 {
                assert(x == start.x + u);
            } else {
                assert(x == start.x - u);
            }
            if sy == 1 {
                assert(y == start.y + v);
            } else {
                assert(y == start.y - v);
            }
            assert(err == dx * (v + 1) + dy * (u + 1)) by (nonlinear_arith)
                requires
                    err0 == dx * (v0 + 1) + dy * (u0 + 1),
                    u == u0 || u == u0 + 1,
                    v == v0 || v == v0 + 1,
                    u == u0 + 1 ==> err == err0 + dy + (if v == v0 + 1 { dx as int } else { 0int }),
                    u == u0 ==> err == err0 + (if v == v0 + 1 { dx as int } else { 0int }),
            ;
            assert(points@ + bresenham_from(end, x as int, y as int, err as int, dx as int, dy as int, sx as int, sy as int, (fuel0 - points@.len()) as nat) =~= total);
        }
    }
    points
}


// ---------------------------------------------------------------------------
// Rays and the cone

/// The lit part of a line from position `i` on: points inside the map,
/// up to and including the first wall.
pub open spec fn ray_from(m: TileMap, pts: Seq<Position>, i: int) -> Seq<Position>
    decreases pts.len() - i,
{
    if i < 0 || i >= pts.len() || !m.spec_contains(pts[i]) {
        seq![]
    } else if m.tile_at(pts[i]) == TileType::Wall {
        seq![pts[i]]
    } else {
        seq![pts[i]] + ray_from(m, pts, i + 1)
    }
}

/// What a ray from `origin` towards `target` lights, `origin` excluded.
pub open spec fn lit_ray(m: TileMap, origin: Position, target: Position) -> Seq<Position> {
    ray_from(m, bresenham(origin, target), 1)
}

proof fn lemma_ray_from_contained(m: TileMap, pts: Seq<Position>, i: int)
    ensures
        forall|k: int| 0 <= k < ray_from(m, pts, i).len() ==> m.spec_contains(#[trigger] ray_from(m, pts, i)[k]),
    decreases pts.len() - i,
{
    if !(i < 0 || i >= pts.len() || !m.spec_contains(pts[i])) && m.tile_at(pts[i]) != TileType::Wall {
        lemma_ray_from_contained(m, pts, i + 1);
        let r = ray_from(m, pts, i);
        assert forall|k: int| 0 <= k < r.len() implies m.spec_contains(#[trigger] r[k]) by {
            if k > 0 {
                assert(r[k] == ray_from(m, pts, i + 1)[k - 1]);
            }
        }
    }
}

impl TileMap {
    /// The tiles a ray from `origin` towards `target` lights: the line's
    /// points after `origin`, while inside the map, up to and including the
    /// first wall.
    pub fn ray_until_blocked(&self, origin: Position, target: Position) -> (ray: Vec<Position>)
        requires
            self.wf(),
            short_line(origin, target),
        ensures
            ray@ == lit_ray(*self, origin, target),
            forall|k: int| 0 <= k < ray@.len() ==> self.spec_contains(#[trigger] ray@[k]),
    {
        let line = bresenham_line(origin, target);
        let ghost pts = line@;
        let mut ray: Vec<Position> = Vec::new();
        let mut i: usize = 1;
        while i < line.len()
            invariant_except_break
                ray@ + ray_from(*self, pts, i as int) == ray_from(*self, pts, 1),
            invariant
                self.wf(),
                pts == line@,
                1 <= i,
            ensures
                ray@ == ray_from(*self, pts, 1),
            decreases line.len() - i,
        {
            let pos = line[i];
            if !self.contains(pos) {
                assert(ray@ =~= ray@ + ray_from(*self, pts, i as int));
                break;
            }
            ray.push(pos);
            if self.tile(pos) == TileType::Wall {
                assert(ray@ =~= ray_from(*self, pts, 1));
                break;
            }
            i = i + 1;
            assert(ray@ + ray_from(*self, pts, i as int) =~= ray_from(*self, pts, 1));
        }
        proof {
            if i >= line.len() {
            }
            lemma_ray_from_contained(*self, pts, 1);
        }
        ray
    }
}


/// Whether the flashlight held at `origin` and pointing `facing` aims at
/// `p`: a tile of the map other than `origin`, within the flashlight's
/// radius, whose direction is within the beam: the cosine between its offset
/// and the facing is at least 0.7 (a positive dot product whose square,
/// times 100, is at least 49 times the squared distance).
pub open spec fn cone_target(m: TileMap, origin: Position, facing: Direction, p: Position) -> bool {
    let dx = p.x - origin.x;
    let dy = p.y - origin.y;
    let f = direction_delta(facing);
    let dsq = dx * dx + dy * dy;
    let dot = dx * f.0 + dy * f.1;
    &&& m.spec_contains(p)
    &&& p != origin
    &&& dsq <= FLASHLIGHT_RADIUS * FLASHLIGHT_RADIUS
    &&& dot > 0
    &&& 100 * (dot * dot) >= 49 * dsq
}

/// Whether `p` is lit: the flashlight's own tile, or a tile on the ray
/// towards some aimed-at tile.
pub open spec fn lit_by(m: TileMap, origin: Position, facing: Direction, p: Position) -> bool {
    &&& m.spec_contains(origin)
    &&& (p == origin || exists|t: Position| #[trigger] cone_target(m, origin, facing, t) && lit_ray(m, origin, t).contains(p))
}

/// The aimed-at tiles in rows above `cy`, and in row `cy` left of `cx`.
pub open spec fn aimed_before(m: TileMap, origin: Position, facing: Direction, cy: int, cx: int, t: Position) -> bool {
    cone_target(m, origin, facing, t) && (t.y < cy || (t.y == cy && t.x < cx))
}

/// Lit by the rays towards the aimed-at tiles before `(cx, cy)`.
pub open spec fn lit_before(m: TileMap, origin: Position, facing: Direction, cy: int, cx: int, p: Position) -> bool {
    p == origin || exists|t: Position| #[trigger] aimed_before(m, origin, facing, cy, cx, t) && lit_ray(m, origin, t).contains(p)
}

proof fn lemma_square_bound(d: int)
    requires
        d * d <= 144,
    ensures
        -12 <= d <= 12,
{
    if d > 12 {
        assert(d * d > 144) by (nonlinear_arith)
            requires
                d > 12,
        ;
    }
    if d < -12 {
        assert(d * d > 144) by (nonlinear_arith)
            requires
                d < -12,
        ;
    }
}

proof fn lemma_cone_near(m: TileMap, origin: Position, facing: Direction, t: Position)
    requires
        cone_target(m, origin, facing, t),
    ensures
        -12 <= t.x - origin.x <= 12,
        -12 <= t.y - origin.y <= 12,
{
    let dx = t.x - origin.x;
    let dy = t.y - origin.y;
    assert(dx * dx >= 0 && dy * dy >= 0) by (nonlinear_arith);
    lemma_square_bound(dx);
    lemma_square_bound(dy);
}

fn aims_at(origin: Position, facing: Direction, p: Position) -> (b: bool)
    requires
        -12 <= p.x - origin.x <= 12,
        -12 <= p.y - origin.y <= 12,
    ensures
        b == ({
            let dx = p.x - origin.x;
            let dy = p.y - origin.y;
            let f = direction_delta(facing);
            let dsq = dx * dx + dy * dy;
            let dot = dx * f.0 + dy * f.1;
            dsq <= FLASHLIGHT_RADIUS * FLASHLIGHT_RADIUS && dot > 0 && 100 * (dot * dot) >= 49 * dsq
        }),
{
    let dx = p.x - origin.x;
    let dy = p.y - origin.y;
    let (fx, fy) = facing.delta();
    proof {
        assert(0 <= dx * dx <= 144 && 0 <= dy * dy <= 144) by (nonlinear_arith)
            requires
                -12 <= dx <= 12,
                -12 <= dy <= 12,
        ;
    }
    let dsq = dx * dx + dy * dy;
    let dot = if fx == 0 {
        dy * fy
    } else {
        dx * fx
    };
    proof {
        assert(-12 <= dot <= 12) by (nonlinear_arith)
            requires
                -12 <= dx <= 12,
                -12 <= dy <= 12,
                (fx == 0 && (fy == 1 || fy == -1) && dot == dy * fy) || (fy == 0 && (fx == 1 || fx == -1)
                    && dot == dx * fx),
        ;
        assert(0 <= dot * dot <= 144) by (nonlinear_arith)
            requires
                -12 <= dot <= 12,
        ;
    }
    dsq <= FLASHLIGHT_RADIUS * FLASHLIGHT_RADIUS && dot > 0 && 100 * (dot * dot) >= 49 * dsq
}

impl TileMap {
    /// The tiles the flashlight lights, each once, in row-major order:
    /// nothing when it is off the map, else its own tile and every tile on
    /// a ray towards a tile of the beam, each ray stopping at the first wall.
    pub fn flashlight_tiles(&self, origin: Position, facing: Direction) -> (lit: Vec<Position>)
        requires
            self.wf(),
            self.spec_contains(origin) ==> origin.x + FLASHLIGHT_RADIUS <= i32::MAX && origin.y
                + FLASHLIGHT_RADIUS <= i32::MAX,
        ensures
            forall|p: Position| lit@.contains(p) <==> #[trigger] lit_by(*self, origin, facing, p),
            lit@.no_duplicates(),
    {
        let mut lit: Vec<Position> = Vec::new();
        if !self.contains(origin) {
            return lit;
        }
        proof {
            self.lemma_wf_len();
        }
        let width = self.width();
        let height = self.height();
        let n = (width * height) as usize;
        let mut mask: Vec<bool> = vec![false; n];
        let oi = self.idx(origin);
        mask.set(oi, true);
        let ghost m = *self;
        let ghost w = width as int;
        let mut y: i64 = origin.y as i64 - FLASHLIGHT_RADIUS as i64;
        assert forall|p: Position| m.spec_contains(p) implies (#[trigger] mask@[grid_index(w, p)] <==> lit_before(
            m,
            origin,
            facing,
            y as int,
            origin.x - FLASHLIGHT_RADIUS,
            p,
        )) by {
            lemma_grid_index_bounds(w, height as int, p);
            if p != origin {
                lemma_grid_index_injective(w, p, origin);
                if lit_before(m, origin, facing, y as int, origin.x - FLASHLIGHT_RADIUS, p) {
                    let t = choose|t: Position| #[trigger] aimed_before(m, origin, facing, y as int, origin.x - FLASHLIGHT_RADIUS, t) && lit_ray(m, origin, t).contains(p);
                    lemma_cone_near(m, origin, facing, t);
                }
            }
        }
        while y <= origin.y as i64 + FLASHLIGHT_RADIUS as i64
            invariant
                m == *self,
                self.wf(),
                w == width,
                width == self.spec_width(),
                height == self.spec_height(),
                n == width * height,
                mask@.len() == n,
                self.spec_contains(origin),
                origin.x + FLASHLIGHT_RADIUS <= i32::MAX,
                origin.y + FLASHLIGHT_RADIUS <= i32::MAX,
                origin.y - FLASHLIGHT_RADIUS <= y <= origin.y + FLASHLIGHT_RADIUS + 1,
                forall|p: Position| m.spec_contains(p) ==> (#[trigger] mask@[grid_index(w, p)] <==> lit_before(
                    m,
                    origin,
                    facing,
                    y as int,
                    origin.x - FLASHLIGHT_RADIUS,
                    p,
                )),
            decreases origin.y + FLASHLIGHT_RADIUS + 1 - y,
        {
            let mut x: i64 = origin.x as i64 - FLASHLIGHT_RADIUS as i64;
            while x <= origin.x as i64 + FLASHLIGHT_RADIUS as i64
                invariant
                    m == *self,
                    self.wf(),
                    w == width,
                    width == self.spec_width(),
                    height == self.spec_height(),
                    n == width * height,
                    mask@.len() == n,
                    self.spec_contains(origin),
                    origin.x + FLASHLIGHT_RADIUS <= i32::MAX,
                    origin.y + FLASHLIGHT_RADIUS <= i32::MAX,
                    origin.y - FLASHLIGHT_RADIUS <= y <= origin.y + FLASHLIGHT_RADIUS,
                    origin.x - FLASHLIGHT_RADIUS <= x <= origin.x + FLASHLIGHT_RADIUS + 1,
                    forall|p: Position| m.spec_contains(p) ==> (#[trigger] mask@[grid_index(w, p)] <==> lit_before(
                        m,
                        origin,
                        facing,
                        y as int,
                        x as int,
                        p,
                    )),
                decreases origin.x + FLASHLIGHT_RADIUS + 1 - x,
            {
                let pos = Position::new(x as i32, y as i32);
                let ghost mask0 = mask@;
                if self.contains(pos) && !(pos.x == origin.x && pos.y == origin.y) && aims_at(origin, facing, pos) {
                    let ray = self.ray_until_blocked(origin, pos);
                    let mut k: usize = 0;
                    while k < ray.len()
                        invariant
                            m == *self,
                            self.wf(),
                            w == width,
                            width == self.spec_width(),
                            mask@.len() == n,
                            n == width * height,
                            height == self.spec_height(),
                            forall|j: int| 0 <= j < ray@.len() ==> self.spec_contains(#[trigger] ray@[j]),
                            k <= ray@.len(),
                            forall|p: Position| m.spec_contains(p) ==> (#[trigger] mask@[grid_index(w, p)] <==> (
                                mask0[grid_index(w, p)] || ray@.subrange(0, k as int).contains(p))),
                        decreases ray.len() - k,
                    {
                        let q = ray[k];
                        let qi = self.idx(q);
                        let ghost before = mask@;
                        mask.set(qi, true);
                        proof {
                            assert forall|p: Position| m.spec_contains(p) implies (#[trigger] mask@[grid_index(w, p)]
                                <==> (mask0[grid_index(w, p)] || ray@.subrange(0, k + 1).contains(p))) by {
                                lemma_grid_index_bounds(w, height as int, p);
                                if p != q {
                                    lemma_grid_index_injective(w, p, q);
                                    if ray@.subrange(0, k + 1).contains(p) {
                                        let j = choose|j: int| 0 <= j < k + 1 && #[trigger] ray@.subrange(0, k + 1)[j] == p;
                                        assert(ray@.subrange(0, k as int)[j] == p);
                                    }
                                    if ray@.subrange(0, k as int).contains(p) {
                                        let j = choose|j: int| 0 <= j < k && #[trigger] ray@.subrange(0, k as int)[j] == p;
                                        assert(ray@.subrange(0, k + 1)[j] == p);
                                    }
                                } else {
                                    assert(ray@.subrange(0, k + 1)[k as int] == q);
                                }
                            }
                        }
                        k = k + 1;
                    }
                    proof {
                        assert(ray@.subrange(0, ray@.len() as int) =~= ray@);
                        assert(cone_target(m, origin, facing, pos));
                        assert forall|p: Position| m.spec_contains(p) implies (#[trigger] mask@[grid_index(w, p)]
                            <==> lit_before(m, origin, facing, y as int, x + 1, p)) by {
                            if lit_before(m, origin, facing, y as int, x + 1, p) && p != origin {
                                let t = choose|t: Position| #[trigger] aimed_before(m, origin, facing, y as int, x + 1, t) && lit_ray(m, origin, t).contains(p);
                                if t != pos {
                                    assert(aimed_before(m, origin, facing, y as int, x as int, t));
                                }
                            }
                            if lit_before(m, origin, facing, y as int, x as int, p) && p != origin {
                                let t = choose|t: Position| #[trigger] aimed_before(m, origin, facing, y as int, x as int, t) && lit_ray(m, origin, t).contains(p);
                                assert(aimed_before(m, origin, facing, y as int, x + 1, t));
                            }
                            if ray@.contains(p) {
                                assert(aimed_before(m, origin, facing, y as int, x + 1, pos));
                            }
                        }
                    }
                } else {
                    proof {
                        assert forall|p: Position| m.spec_contains(p) implies (#[trigger] mask@[grid_index(w, p)]
                            <==> lit_before(m, origin, facing, y as int, x + 1, p)) by {
                            if lit_before(m, origin, facing, y as int, x + 1, p) && p != origin {
                                let t = choose|t: Position| #[trigger] aimed_before(m, origin, facing, y as int, x + 1, t) && lit_ray(m, origin, t).contains(p);
                                if t == pos {
                                    lemma_cone_near(m, origin, facing, t);
                                    assert(false);
                                }
                                assert(aimed_before(m, origin, facing, y as int, x as int, t));
                            }
                            if lit_before(m, origin, facing, y as int, x as int, p) && p != origin {
                                let t = choose|t: Position| #[trigger] aimed_before(m, origin, facing, y as int, x as int, t) && lit_ray(m, origin, t).contains(p);
                                assert(aimed_before(m, origin, facing, y as int, x + 1, t));
                            }
                        }
                    }
                }
                x = x + 1;
            }
            proof {
                assert forall|p: Position| m.spec_contains(p) implies (#[trigger] mask@[grid_index(w, p)] <==> lit_before(
                    m,
                    origin,
                    facing,
                    y + 1,
                    origin.x - FLASHLIGHT_RADIUS,
                    p,
                )) by {
                    if lit_before(m, origin, facing, y + 1, origin.x - FLASHLIGHT_RADIUS, p) && p != origin {
                        let t = choose|t: Position| #[trigger] aimed_before(m, origin, facing, y + 1, origin.x - FLASHLIGHT_RADIUS, t) && lit_ray(m, origin, t).contains(p);
                        lemma_cone_near(m, origin, facing, t);
                        assert(aimed_before(m, origin, facing, y as int, x as int, t));
                    }
                    if lit_before(m, origin, facing, y as int, x as int, p) && p != origin {
                        let t = choose|t: Position| #[trigger] aimed_before(m, origin, facing, y as int, x as int, t) && lit_ray(m, origin, t).contains(p);
                        assert(aimed_before(m, origin, facing, y + 1, origin.x - FLASHLIGHT_RADIUS, t));
                    }
                }
            }
            y = y + 1;
        }
        proof {
            assert forall|p: Position| m.spec_contains(p) implies (#[trigger] mask@[grid_index(w, p)] <==> lit_by(
                m,
                origin,
                facing,
                p,
            )) by {
                if lit_by(m, origin, facing, p) && p != origin {
                    let t = choose|t: Position| #[trigger] cone_target(m, origin, facing, t) && lit_ray(m, origin, t).contains(p);
                    lemma_cone_near(m, origin, facing, t);
                    assert(aimed_before(m, origin, facing, y as int, origin.x - FLASHLIGHT_RADIUS, t));
                }
                if lit_before(m, origin, facing, y as int, origin.x - FLASHLIGHT_RADIUS, p) && p != origin {
                    let t = choose|t: Position| #[trigger] aimed_before(m, origin, facing, y as int, origin.x - FLASHLIGHT_RADIUS, t) && lit_ray(m, origin, t).contains(p);
                    assert(cone_target(m, origin, facing, t));
                }
            }
        }
        let lit = self.collect_marked(&mask);
        proof {
            assert forall|p: Position| lit_by(m, origin, facing, p) implies m.spec_contains(p) by {
                if p != origin {
                    let t = choose|t: Position| #[trigger] cone_target(m, origin, facing, t) && lit_ray(m, origin, t).contains(p);
                    lemma_ray_from_contained(m, bresenham(origin, t), 1);
                    let j = choose|j: int| 0 <= j < lit_ray(m, origin, t).len() && #[trigger] lit_ray(m, origin, t)[j] == p;
                }
            }
        }
        lit
    }

    /// The positions whose entry in `mask` is set, in row-major order.
    fn collect_marked(&self, mask: &Vec<bool>) -> (out: Vec<Position>)
        requires
            self.wf(),
            mask@.len() == self.spec_width() * self.spec_height(),
        ensures
            forall|p: Position| #[trigger] out@.contains(p) <==> (self.spec_contains(p) && mask@[grid_index(self.spec_width(), p)]),
            out@.no_duplicates(),
    {
        proof {
            self.lemma_wf_len();
        }
        let width = self.width();
        let height = self.height();
        let ghost w = width as int;
        let mut out: Vec<Position> = Vec::new();
        let mut y: i32 = 0;
        while y < height
            invariant
                self.wf(),
                width == self.spec_width(),
                height == self.spec_height(),
                mask@.len() == width * height,
                w == width,
                0 <= width,
                0 <= y <= height,
                out@.no_duplicates(),
                forall|p: Position| #[trigger] out@.contains(p) <==> (self.spec_contains(p) && p.y < y && mask@[grid_index(w, p)]),
            decreases height - y,
        {
            let mut x: i32 = 0;
            while x < width
                invariant
                    self.wf(),
                    width == self.spec_width(),
                    height == self.spec_height(),
                    mask@.len() == width * height,
                    w == width,
                    0 <= y < height,
                    0 <= x <= width,
                    out@.no_duplicates(),
                    forall|p: Position| #[trigger] out@.contains(p) <==> (self.spec_contains(p) && (p.y < y || (p.y == y
                        && p.x < x)) && mask@[grid_index(w, p)]),
                decreases width - x,
            {
                let pos = Position::new(x, y);
                let i = self.idx(pos);
                if mask[i] {
                    let ghost before = out@;
                    assert(!before.contains(pos));
                    out.push(pos);
                    proof {
                        assert forall|a: int, b: int| 0 <= a < out@.len() && 0 <= b < out@.len() && a != b implies out@[a]
                            != out@[b] by {
                            if a < before.len() && b < before.len() {
                                assert(before[a] != before[b]);
                            } else if a < before.len() {
                                assert(before.contains(before[a]));
                            } else {
                                assert(before.contains(before[b]));
                            }
                        }
                        assert forall|p: Position| #[trigger] out@.contains(p) <==> (self.spec_contains(p) && (p.y < y
                            || (p.y == y && p.x < x + 1)) && mask@[grid_index(w, p)]) by {
                            if out@.contains(p) && p != pos {
                                let j = choose|j: int| 0 <= j < out@.len() && #[trigger] out@[j] == p;
                                assert(before[j] == p);
                            }
                            if p == pos {
                                assert(out@[before.len() as int] == pos);
                            } else if self.spec_contains(p) && (p.y < y || (p.y == y && p.x < x + 1)) && mask@[grid_index(w, p)] {
                                assert(before.contains(p));
                                let j = choose|j: int| 0 <= j < before.len() && #[trigger] before[j] == p;
                                assert(out@[j] == p);
                            }
                        }
                    }
                }
                x = x + 1;
            }
            y = y + 1;
        }
        out
    }
}

} // verus!
