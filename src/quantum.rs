use vstd::prelude::*;

use crate::io::Input;
use crate::{abs, distance, in_bounds, manhattan, pos_of, Action, ActionKind, COORD_LIMIT};

verus! {

/// Distance from `v` to the closed interval `[lo, hi]`.
pub open spec fn iv_dist(v: int, lo: int, hi: int) -> int {
    if v < lo {
        lo - v
    } else if v > hi {
        v - hi
    } else {
        0
    }
}

pub open spec fn max(a: int, b: int) -> int {
    if a >= b {
        a
    } else {
        b
    }
}

pub open spec fn clamp(v: int, lo: int, hi: int) -> int {
    if v < lo {
        lo
    } else if v > hi {
        hi
    } else {
        v
    }
}

/// The position of the agent after its latest action: the anchor `robot_pos`
/// and a signed extent `range` along a diagonal. The points are
/// `robot_pos + (t, t)` for `0 <= t <= range` when `range >= 0` (up right), and
/// `robot_pos + (-t, t)` for `0 <= t <= -range` otherwise (up left).
#[derive(Debug, Copy, Clone, Hash, PartialEq, Eq)]
pub struct QPos {
    pub robot_pos: [i32; 2],
    pub range: i32,
}

impl Default for QPos {
    fn default() -> (r: QPos)
        ensures
            r == (QPos { robot_pos: [0, 0], range: 0 }),
    {
        QPos { robot_pos: [0, 0], range: 0 }
    }
}

impl QPos {
    pub open spec fn anchor(self) -> (int, int) {
        pos_of(self.robot_pos)
    }

    /// Number of diagonal steps from the anchor to the far end.
    pub open spec fn len(self) -> int {
        abs(self.range as int)
    }

    pub open spec fn point_at(self, t: int) -> (int, int) {
        if self.range < 0 {
            (self.anchor().0 - t, self.anchor().1 + t)
        } else {
            (self.anchor().0 + t, self.anchor().1 + t)
        }
    }

    pub open spec fn end(self) -> (int, int) {
        self.point_at(self.len())
    }

    /// `q` is one of the positions the agent may stand on.
    pub open spec fn contains(self, q: (int, int)) -> bool {
        let t = q.1 - self.anchor().1;
        0 <= t <= self.len() && q == self.point_at(t)
    }

    pub open spec fn wf(self) -> bool {
        in_bounds(self.anchor()) && in_bounds(self.end())
    }

    // In the rotated coordinates u = x + y, w = x - y the positions form the
    // box [u_lo, u_hi] x [w_lo, w_hi], flat in one of the two directions.
    pub open spec fn u_lo(self) -> int {
        self.anchor().0 + self.anchor().1
    }

    pub open spec fn u_hi(self) -> int {
        if self.range < 0 {
            self.u_lo()
        } else {
            self.u_lo() + 2 * self.range
        }
    }

    pub open spec fn w_hi(self) -> int {
        self.anchor().0 - self.anchor().1
    }

    pub open spec fn w_lo(self) -> int {
        if self.range < 0 {
            self.w_hi() + 2 * self.range
        } else {
            self.w_hi()
        }
    }

    /// Distance from the nearest position of `self` to `q`.
    pub open spec fn dist_to(self, q: (int, int)) -> int {
        max(iv_dist(q.0 + q.1, self.u_lo(), self.u_hi()), iv_dist(q.0 - q.1, self.w_lo(), self.w_hi()))
    }

    /// A position of `self` nearest to `q`.
    pub open spec fn closest_to(self, q: (int, int)) -> (int, int) {
        let a = if self.range < 0 { self.anchor().0 - q.0 } else { q.0 - self.anchor().0 };
        self.point_at(clamp(a, 0, self.len()))
    }

    /// Distance still to travel so that some position is within `reach` of `target`.
    pub open spec fn plant_cost(self, target: (int, int), reach: int) -> int {
        max(0, self.dist_to(target) - reach)
    }

    /// The positions left after planting at `target` with interaction radius
    /// `reach`: within the radius, and reached from `self` at the least cost.
    pub open spec fn after_plant(self, target: (int, int), reach: int, q: (int, int)) -> bool {
        manhattan(q, target) <= reach && self.dist_to(q) <= self.plant_cost(target, reach)
    }
}

/// Manhattan distance is the larger of the two distances along the rotated axes.
pub proof fn lemma_manhattan_rotated(a: (int, int), b: (int, int))
    ensures
        manhattan(a, b) == max(
            abs((a.0 + a.1) - (b.0 + b.1)),
            abs((a.0 - a.1) - (b.0 - b.1)),
        ),
{
}

/// No position of `s` is nearer to `q` than `s.dist_to(q)`, and `s.closest_to(q)`
/// is a position of `s` exactly that near.
pub proof fn lemma_dist_to_is_min(s: QPos, q: (int, int))
    ensures
        forall|p: (int, int)| #[trigger] s.contains(p) ==> manhattan(p, q) >= s.dist_to(q),
        s.contains(s.closest_to(q)),
        manhattan(s.closest_to(q), q) == s.dist_to(q),
{
    assert forall|p: (int, int)| #[trigger] s.contains(p) implies manhattan(p, q) >= s.dist_to(q) by {
        lemma_manhattan_rotated(p, q);
    }
    lemma_manhattan_rotated(s.closest_to(q), q);
}

/// The positions kept by planting are exactly those within the radius of the
/// plant that some position of `s` reaches within the planting cost.
pub proof fn lemma_after_plant_reachable(s: QPos, target: (int, int), reach: int, q: (int, int))
    ensures
        s.after_plant(target, reach, q) <==> (manhattan(q, target) <= reach && exists|p: (int, int)|
            #[trigger] s.contains(p) && manhattan(p, q) <= s.plant_cost(target, reach)),
{
    lemma_dist_to_is_min(s, q);
    if s.after_plant(target, reach, q) {
        assert(s.contains(s.closest_to(q)));
    }
}

/// Every position of a well-formed state lies within the coordinate bounds.
pub proof fn lemma_contains_in_bounds(s: QPos, q: (int, int))
    requires
        s.wf(),
        s.contains(q),
    ensures
        in_bounds(q),
{
}

impl QPos {
    /// Collects the seed at `seed_pos`: the agent ends exactly there, and the
    /// cost is the distance from the nearest position of `self`.
    pub fn apply_seed(&self, seed_pos: [i32; 2]) -> (r: (QPos, i32))
        requires
            self.wf(),
            in_bounds(pos_of(seed_pos)),
        ensures
            r.0 == (QPos { robot_pos: seed_pos, range: 0 }),
            r.1 == self.dist_to(pos_of(seed_pos)),
    {
        let pos = self.robot_pos;
        let range = self.range;
        let dist = if range == 0 {
            distance(seed_pos, pos)
        } else {
            let len = if range < 0 { -range } else { range };
            let dx = if range < 0 { pos[0] - seed_pos[0] } else { seed_pos[0] - pos[0] };
            let delta = [dx, seed_pos[1] - pos[1]];
            let t = if dx < 0 { 0 } else if dx > len { len } else { dx };
            proof {
                lemma_dist_to_is_min(*self, pos_of(seed_pos));
                assert(self.closest_to(pos_of(seed_pos)) == self.point_at(t as int));
            }
            distance(delta, [t, t])
        };
        (QPos { robot_pos: seed_pos, range: 0 }, dist)
    }
}


fn iv_dist_exec(v: i64, lo: i64, hi: i64) -> (r: i64)
    requires
        lo <= hi,
        -0x4000_0000_0000 <= v <= 0x4000_0000_0000,
        -0x4000_0000_0000 <= lo <= 0x4000_0000_0000,
        -0x4000_0000_0000 <= hi <= 0x4000_0000_0000,
    ensures
        r == iv_dist(v as int, lo as int, hi as int),
{
    if v < lo {
        lo - v
    } else if v > hi {
        v - hi
    } else {
        0
    }
}

fn floor_half(v: i64) -> (r: i64)
    requires
        -0x4000_0000_0000 <= v <= 0x4000_0000_0000,
    ensures
        2 * r <= v < 2 * r + 2,
{
    if v >= 0 {
        v / 2
    } else {
        -((-v + 1) / 2)
    }
}

fn ceil_half(v: i64) -> (r: i64)
    requires
        -0x4000_0000_0000 <= v <= 0x4000_0000_0000,
    ensures
        2 * r - 2 < v <= 2 * r,
{
    -floor_half(-v)
}

/// A point on a shortest path from `p` to `t`, `c` steps away from `p`.
pub open spec fn step_toward(p: (int, int), t: (int, int), c: int) -> (int, int) {
    let k = if abs(t.0 - p.0) < c { abs(t.0 - p.0) } else { c };
    let x = if t.0 >= p.0 { p.0 + k } else { p.0 - k };
    let y = if t.1 >= p.1 { p.1 + (c - k) } else { p.1 - (c - k) };
    (x, y)
}

proof fn lemma_step_toward(p: (int, int), t: (int, int), c: int)
    requires
        0 <= c <= manhattan(p, t),
    ensures
        manhattan(p, step_toward(p, t, c)) == c,
        manhattan(step_toward(p, t, c), t) == manhattan(p, t) - c,
{
}

pub open spec fn qpos(x: int, y: int, range: int) -> QPos {
    QPos { robot_pos: [x as i32, y as i32], range: range as i32 }
}

/// The state after planting at `t` with radius `reach`, as `apply_plant` builds it.
pub open spec fn plant_state(s: QPos, t: (int, int), reach: int) -> QPos {
    let u1 = box_u1(s, t, reach);
    let u2 = box_u2(s, t, reach);
    let w1 = box_w1(s, t, reach);
    let w2 = box_w2(s, t, reach);
    if w1 == w2 {
        let y0 = -((w1 - u1) / 2);
        let y1 = (u2 - w1) / 2;
        qpos(y0 + w1, y0, y1 - y0)
    } else {
        let y0 = -((w2 - u1) / 2);
        let y1 = (u1 - w1) / 2;
        qpos(u1 - y0, y0, y0 - y1)
    }
}

/// The positions that planting keeps lie within the coordinate bounds.
proof fn lemma_after_plant_in_bounds(s: QPos, target: (int, int), reach: int, q: (int, int))
    requires
        s.wf(),
        in_bounds(target),
        reach >= 0,
        s.after_plant(target, reach, q),
    ensures
        in_bounds(q),
{
    lemma_dist_to_is_min(s, q);
    lemma_dist_to_is_min(s, target);
    let p = s.closest_to(q);
    assert(manhattan(p, target) >= s.dist_to(target));
}

// The box, in rotated coordinates, of the positions kept by planting.
pub open spec fn box_u1(s: QPos, t: (int, int), reach: int) -> int {
    max(t.0 + t.1 - reach, s.u_lo() - s.plant_cost(t, reach))
}

pub open spec fn box_u2(s: QPos, t: (int, int), reach: int) -> int {
    -max(-(t.0 + t.1 + reach), -(s.u_hi() + s.plant_cost(t, reach)))
}

pub open spec fn box_w1(s: QPos, t: (int, int), reach: int) -> int {
    max(t.0 - t.1 - reach, s.w_lo() - s.plant_cost(t, reach))
}

pub open spec fn box_w2(s: QPos, t: (int, int), reach: int) -> int {
    -max(-(t.0 - t.1 + reach), -(s.w_hi() + s.plant_cost(t, reach)))
}

pub open spec fn in_box(s: QPos, t: (int, int), reach: int, q: (int, int)) -> bool {
    &&& box_u1(s, t, reach) <= q.0 + q.1 <= box_u2(s, t, reach)
    &&& box_w1(s, t, reach) <= q.0 - q.1 <= box_w2(s, t, reach)
}

proof fn lemma_after_plant_box(s: QPos, t: (int, int), reach: int, q: (int, int))
    requires
        reach >= 0,
    ensures
        s.after_plant(t, reach, q) <==> in_box(s, t, reach, q),
{
    lemma_manhattan_rotated(q, t);
}

/// Some position is kept by planting, and the box is flat in one direction.
proof fn lemma_box_shape(s: QPos, t: (int, int), reach: int)
    requires
        reach >= 0,
    ensures
        s.after_plant(t, reach, step_toward(s.closest_to(t), t, s.plant_cost(t, reach))),
        box_u1(s, t, reach) <= box_u2(s, t, reach),
        box_w1(s, t, reach) <= box_w2(s, t, reach),
        box_u1(s, t, reach) == box_u2(s, t, reach) || box_w1(s, t, reach) == box_w2(s, t, reach),
{
    let c = s.plant_cost(t, reach);
    lemma_dist_to_is_min(s, t);
    let p = s.closest_to(t);
    lemma_step_toward(p, t, c);
    let w = step_toward(p, t, c);
    lemma_dist_to_is_min(s, w);
    assert(s.after_plant(t, reach, w));
    lemma_after_plant_box(s, t, reach, w);
}

/// A state with fixed `x - y == w` and `u1 <= x + y <= u2` holds exactly the box.
proof fn lemma_flat_w(n: QPos, u1: int, u2: int, w: int, q: (int, int))
    requires
        n.range >= 0,
        n.anchor().0 - n.anchor().1 == w,
        2 * n.anchor().1 - 2 < u1 - w <= 2 * n.anchor().1,
        2 * (n.anchor().1 + n.range) <= u2 - w < 2 * (n.anchor().1 + n.range) + 2,
    ensures
        n.contains(q) <==> (u1 <= q.0 + q.1 <= u2 && q.0 - q.1 == w),
{
}

/// A state with fixed `x + y == u` and `w1 <= x - y <= w2` holds exactly the box.
proof fn lemma_flat_u(n: QPos, u: int, w1: int, w2: int, q: (int, int))
    requires
        n.range <= 0,
        n.anchor().0 + n.anchor().1 == u,
        2 * n.anchor().1 - 2 < u - w2 <= 2 * n.anchor().1,
        2 * (n.anchor().1 - n.range) <= u - w1 < 2 * (n.anchor().1 - n.range) + 2,
    ensures
        n.contains(q) <==> (q.0 + q.1 == u && w1 <= q.0 - q.1 <= w2),
{
}

impl QPos {
    /// The cost of planting at `t` and the box of the positions that it keeps.
    fn plant_box(&self, reach: i32, t: [i32; 2]) -> (r: (i64, i64, i64, i64, i64))
        requires
            self.wf(),
            0 <= reach <= COORD_LIMIT,
            in_bounds(pos_of(t)),
        ensures
            r.0 == box_u1(*self, pos_of(t), reach as int),
            r.1 == box_u2(*self, pos_of(t), reach as int),
            r.2 == box_w1(*self, pos_of(t), reach as int),
            r.3 == box_w2(*self, pos_of(t), reach as int),
            r.4 == self.plant_cost(pos_of(t), reach as int),
    {
        let x = self.robot_pos[0] as i64;
        let y = self.robot_pos[1] as i64;
        let e = self.range as i64;
        let reach_e = reach as i64;
        let u0 = x + y;
        let w0 = x - y;
        let (ulo, uhi, wlo, whi) = if e >= 0 {
            (u0, u0 + 2 * e, w0, w0)
        } else {
            (u0, u0, w0 + 2 * e, w0)
        };
        let a = t[0] as i64 + t[1] as i64;
        let b = t[0] as i64 - t[1] as i64;
        let du = iv_dist_exec(a, ulo, uhi);
        let dw = iv_dist_exec(b, wlo, whi);
        let d = if du >= dw { du } else { dw };
        let c = if d > reach_e { d - reach_e } else { 0 };
        let u1 = if a - reach_e >= ulo - c { a - reach_e } else { ulo - c };
        let u2 = if a + reach_e <= uhi + c { a + reach_e } else { uhi + c };
        let w1 = if b - reach_e >= wlo - c { b - reach_e } else { wlo - c };
        let w2 = if b + reach_e <= whi + c { b + reach_e } else { whi + c };
        (u1, u2, w1, w2, c)
    }

    /// Plants at `plant_pos`: moves the least distance from `self` until some
    /// position is within `input.range` of the plant, and keeps exactly the
    /// positions that reach it at that cost.
    #[verifier::rlimit(40)]
    pub fn apply_plant(&self, input: &Input, plant_pos: [i32; 2]) -> (r: (QPos, i32))
        requires
            self.wf(),
            input.reach_ok(),
            in_bounds(pos_of(plant_pos)),
        ensures
            r.0.wf(),
            r.0 == plant_state(*self, pos_of(plant_pos), input.range as int),
            r.1 == self.plant_cost(pos_of(plant_pos), input.range as int),
            forall|q: (int, int)| #[trigger] r.0.contains(q)
                <==> self.after_plant(pos_of(plant_pos), input.range as int, q),
            self.range == 0 ==> r.1 == max(0, manhattan(self.anchor(), pos_of(plant_pos)) - input.range),
            forall|q: (int, int)| #[trigger] r.0.contains(q) ==> {
                &&& manhattan(q, pos_of(plant_pos)) <= input.range
                &&& (r.1 > 0 ==> manhattan(q, pos_of(plant_pos)) == input.range)
            },
    {
        let ghost target = pos_of(plant_pos);
        let ghost reach = input.range as int;
        let (u1, u2, w1, w2, c) = self.plant_box(input.range, plant_pos);
        proof {
            lemma_box_shape(*self, target, reach);
        }
        let ghost wit = step_toward(self.closest_to(target), target, c as int);
        proof {
            lemma_after_plant_box(*self, target, reach, wit);
            assert forall|q: (int, int)| #[trigger] in_box(*self, target, reach, q) implies in_bounds(q) by {
                lemma_after_plant_box(*self, target, reach, q);
                lemma_after_plant_in_bounds(*self, target, reach, q);
            }
        }
        let new_state = if w1 == w2 {
            proof {
                assert forall|y: int| u1 <= 2 * y + w1 <= u2 implies #[trigger] in_bounds((y + w1, y)) by {
                    assert(in_box(*self, target, reach, (y + w1, y)));
                }
            }
            QPos::flat_w_state(u1, u2, w1, Ghost(wit.1))
        } else {
            proof {
                assert forall|y: int| w1 <= u1 - 2 * y <= w2 implies #[trigger] in_bounds((u1 - y, y)) by {
                    assert(in_box(*self, target, reach, (u1 - y, y)));
                }
            }
            QPos::flat_u_state(u1, w1, w2, Ghost(wit.1))
        };
        proof {
            assert forall|q: (int, int)| #[trigger] new_state.contains(q)
                <==> self.after_plant(target, reach, q) by {
                lemma_after_plant_box(*self, target, reach, q);
            }
            assert forall|q: (int, int)| #[trigger] new_state.contains(q) implies {
                &&& manhattan(q, target) <= reach
                &&& (c > 0 ==> manhattan(q, target) == reach)
            } by {
                lemma_dist_to_is_min(*self, q);
                lemma_dist_to_is_min(*self, target);
                assert(self.contains(self.closest_to(q)));
            }
        }
        (new_state, c as i32)
    }

    /// The state holding the points with `x - y == w` and `u1 <= x + y <= u2`.
    fn flat_w_state(u1: i64, u2: i64, w: i64, Ghost(wy): Ghost<int>) -> (n: QPos)
        requires
            u1 <= 2 * wy + w <= u2,
            -0x1000_0000_0000 <= u1 <= 0x1000_0000_0000,
            -0x1000_0000_0000 <= u2 <= 0x1000_0000_0000,
            -0x1000_0000_0000 <= w <= 0x1000_0000_0000,
            forall|y: int| u1 <= 2 * y + w <= u2 ==> #[trigger] in_bounds((y + w, y)),
        ensures
            n.wf(),
            n == qpos(-((w - u1) / 2) + w, -((w - u1) / 2), (u2 - w) / 2 + (w - u1) / 2),
            forall|q: (int, int)| #[trigger] n.contains(q) <==> (u1 <= q.0 + q.1 <= u2 && q.0 - q.1 == w),
    {
        let y0 = ceil_half(u1 - w);
        let y1 = floor_half(u2 - w);
        proof {
            assert(y0 <= wy <= y1);
            assert(in_bounds((y0 + w, y0 as int)));
            assert(in_bounds((y1 + w, y1 as int)));
        }
        let n = QPos { robot_pos: [(y0 + w) as i32, y0 as i32], range: (y1 - y0) as i32 };
        proof {
            assert forall|q: (int, int)| #[trigger] n.contains(q) <==> (u1 <= q.0 + q.1 <= u2 && q.0 - q.1 == w) by {
                lemma_flat_w(n, u1 as int, u2 as int, w as int, q);
            }
        }
        n
    }

    /// The state holding the points with `x + y == u` and `w1 <= x - y <= w2`.
    fn flat_u_state(u: i64, w1: i64, w2: i64, Ghost(wy): Ghost<int>) -> (n: QPos)
        requires
            w1 <= u - 2 * wy <= w2,
            -0x1000_0000_0000 <= u <= 0x1000_0000_0000,
            -0x1000_0000_0000 <= w1 <= 0x1000_0000_0000,
            -0x1000_0000_0000 <= w2 <= 0x1000_0000_0000,
            forall|y: int| w1 <= u - 2 * y <= w2 ==> #[trigger] in_bounds((u - y, y)),
        ensures
            n.wf(),
            n == qpos(u + (w2 - u) / 2, -((w2 - u) / 2), -((w2 - u) / 2) - (u - w1) / 2),
            forall|q: (int, int)| #[trigger] n.contains(q) <==> (q.0 + q.1 == u && w1 <= q.0 - q.1 <= w2),
    {
        let y0 = ceil_half(u - w2);
        let y1 = floor_half(u - w1);
        proof {
            assert(y0 <= wy <= y1);
            assert(in_bounds((u - y0, y0 as int)));
            assert(in_bounds((u - y1, y1 as int)));
        }
        let n = QPos { robot_pos: [(u - y0) as i32, y0 as i32], range: (y0 - y1) as i32 };
        proof {
            assert forall|q: (int, int)| #[trigger] n.contains(q) <==> (q.0 + q.1 == u && w1 <= q.0 - q.1 <= w2) by {
                lemma_flat_u(n, u as int, w1 as int, w2 as int, q);
            }
        }
        n
    }
}

/// The state after `action`, from the agent state `s`.
pub open spec fn step_state(s: QPos, reach: int, action: Action) -> QPos {
    match action.kind {
        ActionKind::Plant => plant_state(s, pos_of(action.pos), reach),
        ActionKind::Collect => QPos { robot_pos: action.pos, range: 0 },
    }
}

/// The distance travelled by `action`, from the agent state `s`.
pub open spec fn step_cost(s: QPos, reach: int, action: Action) -> int {
    match action.kind {
        ActionKind::Plant => s.plant_cost(pos_of(action.pos), reach),
        ActionKind::Collect => s.dist_to(pos_of(action.pos)),
    }
}

/// Every position of `n` is where `action` can be completed from `s` at the
/// step's cost: within the radius of a plant, or on the seed.
pub open spec fn step_exact(s: QPos, reach: int, action: Action, n: QPos) -> bool {
    &&& n.wf()
    &&& forall|q: (int, int)| #[trigger] n.contains(q) ==> {
        &&& s.dist_to(q) == step_cost(s, reach, action)
        &&& (action.kind == ActionKind::Plant ==> manhattan(q, pos_of(action.pos)) <= reach)
        &&& (action.kind == ActionKind::Collect ==> q == pos_of(action.pos))
    }
}

impl QPos {
    /// The position of `self` nearest to `q`.
    pub fn closest_point(&self, q: [i32; 2]) -> (r: [i32; 2])
        requires
            self.wf(),
            in_bounds(pos_of(q)),
        ensures
            pos_of(r) == self.closest_to(pos_of(q)),
            in_bounds(pos_of(r)),
    {
        proof {
            lemma_dist_to_is_min(*self, pos_of(q));
        }
        let len = if self.range < 0 { -self.range } else { self.range };
        let a = if self.range < 0 { self.robot_pos[0] - q[0] } else { q[0] - self.robot_pos[0] };
        let t = if a < 0 { 0 } else if a > len { len } else { a };
        if self.range < 0 {
            [self.robot_pos[0] - t, self.robot_pos[1] + t]
        } else {
            [self.robot_pos[0] + t, self.robot_pos[1] + t]
        }
    }

    /// Applies a plant or collect action.
    pub fn apply_action(&self, input: &Input, action: &Action) -> (r: (QPos, i32))
        requires
            self.wf(),
            input.reach_ok(),
            in_bounds(pos_of(action.pos)),
        ensures
            r.0.wf(),
            r.0 == step_state(*self, input.range as int, *action),
            r.1 == step_cost(*self, input.range as int, *action),
            step_exact(*self, input.range as int, *action, r.0),
    {
        match action.kind {
            ActionKind::Plant => {
                let r = self.apply_plant(input, action.pos);
                proof {
                    let t = pos_of(action.pos);
                    assert forall|q: (int, int)| #[trigger] r.0.contains(q) implies self.dist_to(q)
                        == step_cost(*self, input.range as int, *action) by {
                        lemma_dist_to_is_min(*self, q);
                        lemma_dist_to_is_min(*self, t);
                        assert(self.contains(self.closest_to(q)));
                    }
                }
                r
            },
            ActionKind::Collect => {
                let r = self.apply_seed(action.pos);
                proof {
                    assert forall|q: (int, int)| #[trigger] r.0.contains(q) implies q == pos_of(action.pos) by {}
                }
                r
            },
        }
    }
}

/// Steps between positions within the bounds cost at most four times the bound.
pub proof fn lemma_cost_bound(s: QPos, q: (int, int), reach: int)
    requires
        s.wf(),
        in_bounds(q),
        reach >= 0,
    ensures
        0 <= s.plant_cost(q, reach) <= s.dist_to(q) <= 4 * COORD_LIMIT,
{
    lemma_dist_to_is_min(s, q);
    assert(s.contains(s.anchor()));
}

/// No step has a negative cost.
pub proof fn lemma_step_cost_nonneg(s: QPos, reach: int, a: Action)
    ensures
        step_cost(s, reach, a) >= 0,
{
}

} // verus!
