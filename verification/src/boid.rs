//! A single flocking agent and its steering rules.
//!
//! A boid owns a position, a velocity and a per-tick force
//! accumulator, all in milli-units, plus its tuning constants. The
//! four steering rules (separation, alignment, cohesion and
//! view-unblocking) each take a candidate neighbor set and return a
//! bounded steering force without mutating anything; integration
//! applies the accumulated force, clamps the speed and wraps the
//! position at the world edges.

use vstd::prelude::*;
use vstd::arithmetic::div_mod::{
    lemma_div_multiples_vanish, lemma_small_mod, lemma_fundamental_div_mod,
    lemma_mod_division_less_than_divisor, lemma_fundamental_div_mod_converse_mod,
};
use crate::vec2::{
    Vec2i, MILLI, abs_i, div_t, is_sqrt, sqrt_f, lemma_sqrt_unique, lemma_sqrt_exists,
    lemma_div_t_facts, lemma_div_t_le, v2p, plus2, minus2, sq2, scale2, divn2, norm2, clamp2,
    dist2, angle2, angle_milli,
};
use crate::world::{WIDTH, HEIGHT, in_world};

verus! {

/// Speed cap, in milli-units per time unit (6 units).
pub const MAX_SPEED: i64 = 6000;

/// Steering-force cap, in milli-units (0.9 units).
pub const MAX_FORCE: i64 = 900;

/// Separation radius (19 units).
pub const SEP_RADIUS: i64 = 19000;

/// Alignment neighbor distance (50 units).
pub const ALIGN_DIST: i64 = 50000;

/// Alignment half-cone, in milliradians (2.0 radians).
pub const ALIGN_ANGLE: i64 = 2000;

/// Cohesion neighbor distance (40 units).
pub const COHERE_DIST: i64 = 40000;

/// View-unblocking half-cone, in milliradians (0.3 radians).
pub const UNBLOCK_ANGLE: i64 = 300;

/// View-unblocking detection distance (40 units).
pub const UNBLOCK_DIST: i64 = 40000;

/// Look-ahead distance for lateral crowd checks (25 units).
pub const LOOK_AHEAD: i64 = 25000;

/// Radius of the lateral crowd checks (20 units).
pub const CROWD_DIST: i64 = 20000;

/// Blocking severity below this threshold is ignored (0.3).
pub const SEV_MIN: i64 = 300;

/// Base strength of the unblocking force (0.2).
pub const BASE_STRENGTH: i64 = 200;

/// Weight of the separation force (2.0).
pub const W_SEP: i64 = 2000;

/// Weight of the alignment force (1.5).
pub const W_ALIGN: i64 = 1500;

/// Weight of the cohesion force (1.8).
pub const W_COHERE: i64 = 1800;

/// Weight of the view-unblocking force (0.4).
pub const W_UNBLOCK: i64 = 400;

/// Largest magnitude of a spawn velocity component (2 units):
/// newly spawned agents start with a small symmetric random
/// velocity.
pub const SPAWN_VEL_MAX: i64 = 2000;

/// Largest time step one tick accepts (10 time units).
pub const DT_MAX: i64 = 10000;

/// Largest population a flock accepts.
pub const POP_MAX: usize = 100000;

/// Largest candidate neighbor set a steering rule accepts: at most
/// nine cells' worth of the largest population.
pub const NS_MAX: usize = 900000;

/// Bound on the accumulated force's components after one tick's
/// four weighted contributions.
pub const ACC_MAX: i64 = 5200;

/// A single flocking agent.
#[derive(Clone, Copy, PartialEq, Eq, Structural, Debug)]
pub struct Boid {
    /// Stable index within the flock; steering excludes a neighbor
    /// with the same identity, never one that merely shares state.
    pub id: usize,
    /// World position in milli-units.
    pub position: Vec2i,
    /// Velocity in milli-units per time unit.
    pub velocity: Vec2i,
    /// Per-tick force accumulator; zero between ticks.
    pub acceleration: Vec2i,
    /// Speed cap, fixed at spawn.
    pub max_speed: i64,
    /// Steering-force cap, fixed at spawn.
    pub max_force: i64,
}

/// A velocity whose floor norm is within the speed cap.
pub open spec fn vel_ok(v: Vec2i) -> bool {
    v.sq_len() <= MAX_SPEED * MAX_SPEED + 2 * MAX_SPEED && v.within(MAX_SPEED as int)
}

impl Boid {
    /// The position as an integer pair.
    pub open spec fn pos2(self) -> (int, int) {
        v2p(self.position)
    }

    /// The velocity as an integer pair.
    pub open spec fn vel2(self) -> (int, int) {
        v2p(self.velocity)
    }

    /// The state every steering rule relies on: a position inside
    /// the world and a velocity within the speed cap.
    pub open spec fn sound(self) -> bool {
        in_world(self.position) && vel_ok(self.velocity)
    }

    /// The tuning constants are the module-wide ones.
    pub open spec fn tuned(self) -> bool {
        self.max_speed == MAX_SPEED && self.max_force == MAX_FORCE
    }

    /// Well-formed between ticks: sound, tuned, and with an empty
    /// force accumulator.
    pub open spec fn wf(self) -> bool {
        self.sound() && self.tuned() && self.acceleration.is_zero()
    }
}

/// Every boid of the sequence is sound.
pub open spec fn ns_ok(ns: Seq<Boid>) -> bool {
    forall|i: int| 0 <= i < ns.len() ==> (#[trigger] ns[i]).sound()
}

/// A neighbor separation acts on: another identity, strictly closer
/// than the separation radius and at least one milli-unit away.
pub open spec fn sep_cond(b: Boid, o: Boid) -> bool {
    o.id != b.id && 1 <= dist2(b.pos2(), o.pos2()) < SEP_RADIUS
}

/// Separation contribution of one neighbor: the direction away from
/// it, weighted by the inverse of the distance in units.
pub open spec fn sep_term(b: Boid, o: Boid) -> (int, int) {
    let dd = dist2(b.pos2(), o.pos2());
    let u = norm2(minus2(b.pos2(), o.pos2()));
    (div_t(u.0 * 1000, dd), div_t(u.1 * 1000, dd))
}

/// Separation accumulator over a neighbor sequence:
/// (sum x, sum y, count).
pub open spec fn sep_acc(b: Boid, ns: Seq<Boid>) -> (int, int, int)
    decreases ns.len(),
{
    if ns.len() == 0 {
        (0, 0, 0)
    } else {
        let p = sep_acc(b, ns.drop_last());
        let o = ns.last();
        if sep_cond(b, o) {
            let t = sep_term(b, o);
            (p.0 + t.0, p.1 + t.1, p.2 + 1)
        } else {
            p
        }
    }
}

/// Steering toward a desired velocity at full speed, clamped to the
/// force cap.
pub open spec fn steer_sp(b: Boid, desired_dir: (int, int)) -> (int, int) {
    clamp2(minus2(scale2(norm2(desired_dir), MAX_SPEED as int), b.vel2()), MAX_FORCE as int)
}

/// The separation rule.
pub open spec fn separate_sp(b: Boid, ns: Seq<Boid>) -> (int, int) {
    let a = sep_acc(b, ns);
    if a.2 > 0 {
        let avg = divn2((a.0, a.1), a.2);
        if sq2(avg) > 0 {
            steer_sp(b, avg)
        } else {
            (0, 0)
        }
    } else {
        (0, 0)
    }
}

/// The seek rule: steer toward a target point, or not at all when
/// the target coincides with the position at milli resolution.
pub open spec fn seek_sp(b: Boid, target: (int, int)) -> (int, int) {
    let d = minus2(target, b.pos2());
    if sq2(d) == 0 {
        (0, 0)
    } else {
        steer_sp(b, d)
    }
}

impl Boid {
    /// Steer toward a target point: desired velocity is the
    /// direction to the target at full speed, and the returned force
    /// is the clamped difference from the current velocity. A target
    /// on the boid's own position yields the zero vector.
    pub fn seek(&self, target: Vec2i) -> (r: Vec2i)
        requires
            self.sound(),
            self.tuned(),
            target.within(10000000),
        ensures
            (r.x as int, r.y as int) == seek_sp(*self, v2p(target)),
            r.within(MAX_FORCE as int),
    {
        let desired = target.minus(self.position);
        let n2 = desired.sq_len_x();
        if n2 == 0 {
            return Vec2i { x: 0, y: 0 };
        }
        let u = desired.normalize_milli();
        let scaled = u.scale_milli(MAX_SPEED);
        proof {
            lemma_div_t_le(u.x * (MAX_SPEED as int), 1000, MAX_SPEED as int);
            lemma_div_t_le(u.y * (MAX_SPEED as int), 1000, MAX_SPEED as int);
            assert(abs_i(u.x * (MAX_SPEED as int)) <= 1000 * (MAX_SPEED as int)
                && abs_i(u.y * (MAX_SPEED as int)) <= 1000 * (MAX_SPEED as int))
                by (nonlinear_arith)
                requires
                    u.within(1000),
            ;
        }
        let steer = scaled.minus(self.velocity);
        steer.clamp_len_max(self.max_force)
    }
}

/// A neighbor alignment listens to: another identity, within the
/// alignment distance and inside the forward view cone.
pub open spec fn align_cond(b: Boid, o: Boid) -> bool {
    o.id != b.id && angle2(b.vel2(), minus2(o.pos2(), b.pos2())) < ALIGN_ANGLE && dist2(
        b.pos2(),
        o.pos2(),
    ) < ALIGN_DIST
}

/// Alignment accumulator: (sum of velocities x, y, count).
pub open spec fn align_acc(b: Boid, ns: Seq<Boid>) -> (int, int, int)
    decreases ns.len(),
{
    if ns.len() == 0 {
        (0, 0, 0)
    } else {
        let p = align_acc(b, ns.drop_last());
        let o = ns.last();
        if align_cond(b, o) {
            (p.0 + o.velocity.x, p.1 + o.velocity.y, p.2 + 1)
        } else {
            p
        }
    }
}

/// The alignment rule: match the average velocity of the neighbors
/// in view, rescaled to full speed.
pub open spec fn align_sp(b: Boid, ns: Seq<Boid>) -> (int, int) {
    let a = align_acc(b, ns);
    if a.2 > 0 {
        let avg = divn2((a.0, a.1), a.2);
        let s = if sq2(avg) > 0 {
            scale2(norm2(avg), MAX_SPEED as int)
        } else {
            (0, 0)
        };
        clamp2(minus2(s, b.vel2()), MAX_FORCE as int)
    } else {
        (0, 0)
    }
}

/// A neighbor cohesion counts: another identity within the cohesion
/// distance; no view-cone gate.
pub open spec fn cohere_cond(b: Boid, o: Boid) -> bool {
    o.id != b.id && dist2(b.pos2(), o.pos2()) < COHERE_DIST
}

/// Cohesion accumulator: (sum of positions x, y, count).
pub open spec fn cohere_acc(b: Boid, ns: Seq<Boid>) -> (int, int, int)
    decreases ns.len(),
{
    if ns.len() == 0 {
        (0, 0, 0)
    } else {
        let p = cohere_acc(b, ns.drop_last());
        let o = ns.last();
        if cohere_cond(b, o) {
            (p.0 + o.position.x, p.1 + o.position.y, p.2 + 1)
        } else {
            p
        }
    }
}

/// The cohesion rule: seek the average position of the neighbors
/// within the cohesion distance.
pub open spec fn cohere_sp(b: Boid, ns: Seq<Boid>) -> (int, int) {
    let a = cohere_acc(b, ns);
    if a.2 > 0 {
        seek_sp(b, divn2((a.0, a.1), a.2))
    } else {
        (0, 0)
    }
}

/// A neighbor that blocks the view: another identity, inside the
/// narrow forward cone and the detection distance.
pub open spec fn ub_cond(b: Boid, o: Boid) -> bool {
    o.id != b.id && angle2(b.vel2(), minus2(o.pos2(), b.pos2())) < UNBLOCK_ANGLE && dist2(
        b.pos2(),
        o.pos2(),
    ) < UNBLOCK_DIST
}

/// Blocking severity of one obstruction: the product of a linear
/// angular falloff and a linear distance falloff, in milli.
pub open spec fn ub_term(b: Boid, o: Boid) -> int {
    let a = angle2(b.vel2(), minus2(o.pos2(), b.pos2()));
    let dd = dist2(b.pos2(), o.pos2());
    div_t((1000 - div_t(a * 1000, UNBLOCK_ANGLE as int)) * (1000 - div_t(dd, 40)), 1000)
}

/// Total blocking severity over a neighbor sequence, in milli.
pub open spec fn sev_acc(b: Boid, ns: Seq<Boid>) -> int
    decreases ns.len(),
{
    if ns.len() == 0 {
        0
    } else {
        let p = sev_acc(b, ns.drop_last());
        let o = ns.last();
        if ub_cond(b, o) {
            p + ub_term(b, o)
        } else {
            p
        }
    }
}

/// A neighbor crowds a look-ahead point when it is another identity
/// within the crowd radius of that point.
pub open spec fn crowd_cond(b: Boid, o: Boid, pt: (int, int)) -> bool {
    o.id != b.id && dist2(pt, o.pos2()) < CROWD_DIST
}

/// How many neighbors crowd a look-ahead point.
pub open spec fn crowd_acc(b: Boid, ns: Seq<Boid>, pt: (int, int)) -> int
    decreases ns.len(),
{
    if ns.len() == 0 {
        0
    } else {
        let p = crowd_acc(b, ns.drop_last(), pt);
        if crowd_cond(b, ns.last(), pt) {
            p + 1
        } else {
            p
        }
    }
}

/// The view-unblocking rule: when the forward view is severely
/// blocked, push toward the lateral side whose look-ahead point is
/// less crowded (ties go right), with a strength that grows with
/// the severity up to a cap.
pub open spec fn unblock_sp(b: Boid, ns: Seq<Boid>) -> (int, int) {
    let sev = sev_acc(b, ns);
    if sev < SEV_MIN {
        (0, 0)
    } else if sq2(b.vel2()) == 0 {
        (0, 0)
    } else {
        let d1 = norm2(b.vel2());
        let right = (d1.1, -d1.0);
        let left = (-d1.1, d1.0);
        let rp = plus2(b.pos2(), scale2(right, LOOK_AHEAD as int));
        let lp = plus2(b.pos2(), scale2(left, LOOK_AHEAD as int));
        let rc = crowd_acc(b, ns, rp);
        let lc = crowd_acc(b, ns, lp);
        let chosen = if lc < rc {
            left
        } else {
            right
        };
        let mult = if 2 * sev < 1000 {
            2 * sev
        } else {
            1000
        };
        let s1 = div_t(BASE_STRENGTH as int * mult, 1000);
        let s2 = div_t(s1 * MAX_FORCE as int, 1000);
        scale2(chosen, s2)
    }
}

impl Boid {
    /// Match the heading of the neighbors inside the forward view
    /// cone and the alignment distance. Returns the zero vector when
    /// none is in view.
    pub fn align(&self, others: &Vec<Boid>) -> (r: Vec2i)
        requires
            self.sound(),
            self.tuned(),
            ns_ok(others@),
            others@.len() <= NS_MAX,
        ensures
            (r.x as int, r.y as int) == align_sp(*self, others@),
            r.within(MAX_FORCE as int),
    {
        let mut sx: i64 = 0;
        let mut sy: i64 = 0;
        let mut cnt: i64 = 0;
        let n = others.len();
        for k in 0..n
            invariant
                n == others@.len() <= NS_MAX,
                self.sound(),
                self.tuned(),
                ns_ok(others@),
                (sx as int, sy as int, cnt as int) == align_acc(*self, others@.take(k as int)),
                0 <= cnt <= k,
                -6000 * cnt <= sx <= 6000 * cnt,
                -6000 * cnt <= sy <= 6000 * cnt,
        {
            let o = others[k];
            let diff = o.position.minus(self.position);
            let a = angle_milli(self.velocity, diff);
            let d = self.position.dist(o.position);
            if o.id != self.id && a < ALIGN_ANGLE && d < ALIGN_DIST {
                sx = sx + o.velocity.x;
                sy = sy + o.velocity.y;
                cnt = cnt + 1;
            }
            proof {
                assert(others@.take(k as int + 1).drop_last() =~= others@.take(k as int));
                assert(others@.take(k as int + 1).last() == others@[k as int]);
            }
        }
        proof {
            assert(others@.take(n as int) =~= others@);
        }
        if cnt > 0 {
            let ax: i64 = sx / cnt;
            let ay: i64 = sy / cnt;
            proof {
                lemma_div_t_le(sx as int, cnt as int, 6000);
                lemma_div_t_le(sy as int, cnt as int, 6000);
            }
            let avg = Vec2i { x: ax, y: ay };
            let n2 = avg.sq_len_x();
            let s = if n2 > 0 {
                let u = avg.normalize_milli();
                proof {
                    lemma_div_t_le(u.x * (MAX_SPEED as int), 1000, MAX_SPEED as int);
                    lemma_div_t_le(u.y * (MAX_SPEED as int), 1000, MAX_SPEED as int);
                    assert(abs_i(u.x * (MAX_SPEED as int)) <= 1000 * (MAX_SPEED as int)
                        && abs_i(u.y * (MAX_SPEED as int)) <= 1000 * (MAX_SPEED as int))
                        by (nonlinear_arith)
                        requires
                            u.within(1000),
                    ;
                }
                u.scale_milli(MAX_SPEED)
            } else {
                Vec2i { x: 0, y: 0 }
            };
            let steer = s.minus(self.velocity);
            steer.clamp_len_max(self.max_force)
        } else {
            Vec2i { x: 0, y: 0 }
        }
    }

    /// Move toward the center of the neighbors within the cohesion
    /// distance, by seeking their average position. Returns the zero
    /// vector when none is within distance.
    pub fn cohere(&self, others: &Vec<Boid>) -> (r: Vec2i)
        requires
            self.sound(),
            self.tuned(),
            ns_ok(others@),
            others@.len() <= NS_MAX,
        ensures
            (r.x as int, r.y as int) == cohere_sp(*self, others@),
            r.within(MAX_FORCE as int),
    {
        let mut sx: i64 = 0;
        let mut sy: i64 = 0;
        let mut cnt: i64 = 0;
        let n = others.len();
        for k in 0..n
            invariant
                n == others@.len() <= NS_MAX,
                self.sound(),
                self.tuned(),
                ns_ok(others@),
                (sx as int, sy as int, cnt as int) == cohere_acc(*self, others@.take(k as int)),
                0 <= cnt <= k,
                0 <= sx <= 1199999 * cnt,
                0 <= sy <= 799999 * cnt,
        {
            let o = others[k];
            let d = self.position.dist(o.position);
            if o.id != self.id && d < COHERE_DIST {
                sx = sx + o.position.x;
                sy = sy + o.position.y;
                cnt = cnt + 1;
            }
            proof {
                assert(others@.take(k as int + 1).drop_last() =~= others@.take(k as int));
                assert(others@.take(k as int + 1).last() == others@[k as int]);
            }
        }
        proof {
            assert(others@.take(n as int) =~= others@);
        }
        if cnt > 0 {
            let ax: i64 = sx / cnt;
            let ay: i64 = sy / cnt;
            proof {
                lemma_div_t_le(sx as int, cnt as int, 1199999);
                lemma_div_t_le(sy as int, cnt as int, 799999);
                lemma_div_t_facts(sx as int, cnt as int);
                lemma_div_t_facts(sy as int, cnt as int);
            }
            self.seek(Vec2i { x: ax, y: ay })
        } else {
            Vec2i { x: 0, y: 0 }
        }
    }

    /// Steer sideways when the forward view is blocked: score every
    /// obstruction in the narrow forward cone by angular and
    /// distance falloff, and above the severity threshold push
    /// toward the less crowded lateral side.
    pub fn view_unblocking(&self, others: &Vec<Boid>) -> (r: Vec2i)
        requires
            self.sound(),
            self.tuned(),
            ns_ok(others@),
            others@.len() <= NS_MAX,
        ensures
            (r.x as int, r.y as int) == unblock_sp(*self, others@),
            r.within(MAX_FORCE as int),
    {
        let mut sev: i64 = 0;
        let n = others.len();
        for k in 0..n
            invariant
                n == others@.len() <= NS_MAX,
                self.sound(),
                self.tuned(),
                ns_ok(others@),
                sev as int == sev_acc(*self, others@.take(k as int)),
                0 <= sev <= 1000 * k,
        {
            let o = others[k];
            let diff = o.position.minus(self.position);
            let a = angle_milli(self.velocity, diff);
            let d = self.position.dist(o.position);
            if o.id != self.id && a < UNBLOCK_ANGLE && d < UNBLOCK_DIST {
                proof {
                    lemma_div_t_facts(a as int * 1000, UNBLOCK_ANGLE as int);
                    lemma_div_t_le(a as int * 1000, UNBLOCK_ANGLE as int, 1000);
                    lemma_div_t_facts(d as int, 40);
                    lemma_div_t_le(d as int, 40, 1000);
                }
                let af: i64 = 1000 - (a * 1000) / UNBLOCK_ANGLE;
                let df: i64 = 1000 - d / 40;
                proof {
                    assert(0 <= af * df <= 1000 * 1000) by (nonlinear_arith)
                        requires
                            0 <= af <= 1000,
                            0 <= df <= 1000,
                    ;
                    lemma_div_t_facts(af as int * df as int, 1000);
                    lemma_div_t_le(af as int * df as int, 1000, 1000);
                }
                let t: i64 = (af * df) / 1000;
                sev = sev + t;
            }
            proof {
                assert(others@.take(k as int + 1).drop_last() =~= others@.take(k as int));
                assert(others@.take(k as int + 1).last() == others@[k as int]);
            }
        }
        proof {
            assert(others@.take(n as int) =~= others@);
        }
        if sev < SEV_MIN {
            return Vec2i { x: 0, y: 0 };
        }
        let vn2 = self.velocity.sq_len_x();
        if vn2 == 0 {
            return Vec2i { x: 0, y: 0 };
        }
        let d1 = self.velocity.normalize_milli();
        let lat_r = Vec2i { x: d1.y, y: -d1.x };
        let lat_l = Vec2i { x: -d1.y, y: d1.x };
        proof {
            lemma_div_t_le(lat_r.x * (LOOK_AHEAD as int), 1000, LOOK_AHEAD as int);
            lemma_div_t_le(lat_r.y * (LOOK_AHEAD as int), 1000, LOOK_AHEAD as int);
            lemma_div_t_le(lat_l.x * (LOOK_AHEAD as int), 1000, LOOK_AHEAD as int);
            lemma_div_t_le(lat_l.y * (LOOK_AHEAD as int), 1000, LOOK_AHEAD as int);
            assert(abs_i(lat_r.x * (LOOK_AHEAD as int)) <= 1000 * (LOOK_AHEAD as int)
                && abs_i(lat_r.y * (LOOK_AHEAD as int)) <= 1000 * (LOOK_AHEAD as int)
                && abs_i(lat_l.x * (LOOK_AHEAD as int)) <= 1000 * (LOOK_AHEAD as int)
                && abs_i(lat_l.y * (LOOK_AHEAD as int)) <= 1000 * (LOOK_AHEAD as int))
                by (nonlinear_arith)
                requires
                    lat_r.within(1000),
                    lat_l.within(1000),
            ;
        }
        let rp = self.position.plus(lat_r.scale_milli(LOOK_AHEAD));
        let lp = self.position.plus(lat_l.scale_milli(LOOK_AHEAD));
        let mut rc: i64 = 0;
        let mut lc: i64 = 0;
        for k in 0..n
            invariant
                n == others@.len() <= NS_MAX,
                self.sound(),
                ns_ok(others@),
                rp.within(1300000),
                lp.within(1300000),
                rc as int == crowd_acc(*self, others@.take(k as int), (rp.x as int, rp.y as int)),
                lc as int == crowd_acc(*self, others@.take(k as int), (lp.x as int, lp.y as int)),
                0 <= rc <= k,
                0 <= lc <= k,
        {
            let o = others[k];
            let dr = rp.dist(o.position);
            if o.id != self.id && dr < CROWD_DIST {
                rc = rc + 1;
            }
            let dl = lp.dist(o.position);
            if o.id != self.id && dl < CROWD_DIST {
                lc = lc + 1;
            }
            proof {
                assert(others@.take(k as int + 1).drop_last() =~= others@.take(k as int));
                assert(others@.take(k as int + 1).last() == others@[k as int]);
            }
        }
        proof {
            assert(others@.take(n as int) =~= others@);
        }
        let chosen = if lc < rc {
            lat_l
        } else {
            lat_r
        };
        let twice: i64 = 2 * sev;
        let mult: i64 = if twice < 1000 {
            twice
        } else {
            1000
        };
        proof {
            lemma_div_t_facts(BASE_STRENGTH as int * mult as int, 1000);
            lemma_div_t_le(BASE_STRENGTH as int * mult as int, 1000, BASE_STRENGTH as int);
            assert(0 <= BASE_STRENGTH as int * mult as int <= 1000 * 200) by (nonlinear_arith)
                requires
                    0 <= mult <= 1000,
                    BASE_STRENGTH == 200i64,
            ;
        }
        let s1: i64 = (BASE_STRENGTH * mult) / 1000;
        proof {
            lemma_div_t_facts(s1 as int * (MAX_FORCE as int), 1000);
            lemma_div_t_le(s1 as int * (MAX_FORCE as int), 1000, 180);
            assert(0 <= s1 as int * (MAX_FORCE as int) <= 1000 * 180) by (nonlinear_arith)
                requires
                    0 <= s1 <= 200,
                    MAX_FORCE == 900i64,
            ;
        }
        let s2: i64 = (s1 * self.max_force) / 1000;
        proof {
            assert(abs_i(chosen.x * s2) <= 1000 * 180 && abs_i(chosen.y * s2) <= 1000
                * 180) by (nonlinear_arith)
                requires
                    chosen.within(1000),
                    0 <= s2 <= 180,
            ;
            lemma_div_t_le(chosen.x * s2, 1000, 180);
            lemma_div_t_le(chosen.y * s2, 1000, 180);
        }
        chosen.scale_milli(s2)
    }
}

/// Relies on fastrand::i64: a uniform draw from `lo..hi`; it panics
/// only on an empty range, which the precondition rules out.
#[verifier::external_body]
fn rand_in(lo: i64, hi: i64) -> (r: i64)
    requires
        lo < hi,
    ensures
        lo <= r < hi,
{
    fastrand::i64(lo..hi)
}

impl Boid {
    /// Spawn an agent with the given identity, a uniformly random
    /// position in the world and a small random velocity.
    pub fn spawn(id: usize) -> (r: Boid)
        ensures
            r.wf(),
            r.id == id,
            -SPAWN_VEL_MAX <= r.velocity.x <= SPAWN_VEL_MAX,
            -SPAWN_VEL_MAX <= r.velocity.y <= SPAWN_VEL_MAX,
    {
        let px = rand_in(0, WIDTH);
        let py = rand_in(0, HEIGHT);
        let vx = rand_in(-SPAWN_VEL_MAX, SPAWN_VEL_MAX + 1);
        let vy = rand_in(-SPAWN_VEL_MAX, SPAWN_VEL_MAX + 1);
        let r = Boid {
            id,
            position: Vec2i { x: px, y: py },
            velocity: Vec2i { x: vx, y: vy },
            acceleration: Vec2i { x: 0, y: 0 },
            max_speed: MAX_SPEED,
            max_force: MAX_FORCE,
        };
        proof {
            assert(r.velocity.sq_len() <= MAX_SPEED * MAX_SPEED + 2 * MAX_SPEED)
                by (nonlinear_arith)
                requires
                    -2000 <= r.velocity.x <= 2000,
                    -2000 <= r.velocity.y <= 2000,
                    MAX_SPEED == 6000i64,
            ;
        }
        r
    }

    /// Make an agent from explicit state; spawning aside, this is
    /// how a caller builds a deterministic population.
    pub fn with_state(id: usize, px: i64, py: i64, vx: i64, vy: i64) -> (r: Boid)
        requires
            0 <= px < WIDTH,
            0 <= py < HEIGHT,
            vel_ok(Vec2i { x: vx, y: vy }),
        ensures
            r.wf(),
            r.id == id,
            r.position == (Vec2i { x: px, y: py }),
            r.velocity == (Vec2i { x: vx, y: vy }),
    {
        Boid {
            id,
            position: Vec2i { x: px, y: py },
            velocity: Vec2i { x: vx, y: vy },
            acceleration: Vec2i { x: 0, y: 0 },
            max_speed: MAX_SPEED,
            max_force: MAX_FORCE,
        }
    }

    /// Keep away from neighbors that crowd inside the separation
    /// radius: average the inverse-distance-weighted directions away
    /// from each and steer toward that average at full speed.
    /// Returns the zero vector when no neighbor is inside the
    /// radius.
    pub fn separate(&self, others: &Vec<Boid>) -> (r: Vec2i)
        requires
            self.sound(),
            self.tuned(),
            ns_ok(others@),
            others@.len() <= NS_MAX,
        ensures
            (r.x as int, r.y as int) == separate_sp(*self, others@),
            r.within(MAX_FORCE as int),
    {
        let mut sx: i64 = 0;
        let mut sy: i64 = 0;
        let mut cnt: i64 = 0;
        let n = others.len();
        for k in 0..n
            invariant
                n == others@.len() <= NS_MAX,
                self.sound(),
                self.tuned(),
                ns_ok(others@),
                (sx as int, sy as int, cnt as int) == sep_acc(*self, others@.take(k as int)),
                0 <= cnt <= k,
                -1000000 * cnt <= sx <= 1000000 * cnt,
                -1000000 * cnt <= sy <= 1000000 * cnt,
        {
            let o = others[k];
            let d = self.position.dist(o.position);
            if o.id != self.id && d >= 1 && d < SEP_RADIUS {
                let diff = self.position.minus(o.position);
                proof {
                    assert(diff.sq_len() >= d * d >= 1) by (nonlinear_arith)
                        requires
                            is_sqrt(diff.sq_len(), d as int),
                            d >= 1,
                    ;
                }
                let u = diff.normalize_milli();
                proof {
                    assert(abs_i(u.x * 1000) <= (d as int) * 1000000 && abs_i(u.y * 1000) <= (
                    d as int) * 1000000) by (nonlinear_arith)
                        requires
                            u.within(1000),
                            d >= 1,
                    ;
                    lemma_div_t_le(u.x * 1000, d as int, 1000000);
                    lemma_div_t_le(u.y * 1000, d as int, 1000000);
                }
                let tx: i64 = (u.x * MILLI) / d;
                let ty: i64 = (u.y * MILLI) / d;
                sx = sx + tx;
                sy = sy + ty;
                cnt = cnt + 1;
            }
            proof {
                assert(others@.take(k as int + 1).drop_last() =~= others@.take(k as int));
                assert(others@.take(k as int + 1).last() == others@[k as int]);
            }
        }
        proof {
            assert(others@.take(n as int) =~= others@);
        }
        if cnt > 0 {
            let ax: i64 = sx / cnt;
            let ay: i64 = sy / cnt;
            proof {
                lemma_div_t_le(sx as int, cnt as int, 1000000);
                lemma_div_t_le(sy as int, cnt as int, 1000000);
            }
            let avg = Vec2i { x: ax, y: ay };
            let n2 = avg.sq_len_x();
            if n2 > 0 {
                let u = avg.normalize_milli();
                let scaled = u.scale_milli(MAX_SPEED);
                proof {
                    lemma_div_t_le(u.x * (MAX_SPEED as int), 1000, MAX_SPEED as int);
                    lemma_div_t_le(u.y * (MAX_SPEED as int), 1000, MAX_SPEED as int);
                    assert(abs_i(u.x * (MAX_SPEED as int)) <= 1000 * (MAX_SPEED as int)
                        && abs_i(u.y * (MAX_SPEED as int)) <= 1000 * (MAX_SPEED as int))
                        by (nonlinear_arith)
                        requires
                            u.within(1000),
                    ;
                }
                let steer = scaled.minus(self.velocity);
                steer.clamp_len_max(self.max_force)
            } else {
                Vec2i { x: 0, y: 0 }
            }
        } else {
            Vec2i { x: 0, y: 0 }
        }
    }
}

/// The velocity after one integration step: the accumulated force,
/// scaled by the time scale, is added and the speed is clamped.
pub open spec fn vel_upd(vel: (int, int), acc: (int, int), dt: int) -> (int, int) {
    clamp2(plus2(vel, scale2(acc, dt * 60)), MAX_SPEED as int)
}

/// The position after one integration step: the new velocity,
/// scaled by the time scale, is added and each axis wraps around
/// the world bounds.
pub open spec fn pos_upd(pos: (int, int), vel: (int, int), dt: int) -> (int, int) {
    let p = plus2(pos, scale2(vel, dt * 60));
    (p.0 % (WIDTH as int), p.1 % (HEIGHT as int))
}

/// The force one tick accumulates: the four steering rules, each
/// scaled by its weight.
pub open spec fn forces2(b: Boid, ns: Seq<Boid>) -> (int, int) {
    plus2(
        plus2(
            plus2(scale2(separate_sp(b, ns), W_SEP as int), scale2(align_sp(b, ns), W_ALIGN as int)),
            scale2(cohere_sp(b, ns), W_COHERE as int),
        ),
        scale2(unblock_sp(b, ns), W_UNBLOCK as int),
    )
}

/// Wrap a coordinate into `[0, w)`, preserving its residue.
pub fn wrap_coord(x: i64, w: i64) -> (r: i64)
    requires
        1 <= w <= 2000000,
        -100000000 <= x <= 100000000,
    ensures
        r == (x as int) % (w as int),
        0 <= r < w,
{
    let m: i64 = x % w;
    let r: i64 = if m < 0 {
        m + w
    } else {
        m
    };
    proof {
        if x >= 0 {
            lemma_mod_division_less_than_divisor(x as int, w as int);
        } else {
            let s = (-x as int) % (w as int);
            let q = (-x as int) / (w as int);
            lemma_fundamental_div_mod(-x as int, w as int);
            lemma_mod_division_less_than_divisor(-x as int, w as int);
            assert(m == -s);
            if s == 0 {
                assert(x == q * (-(w as int)) + 0) by (nonlinear_arith)
                    requires
                        -x == (w as int) * q + 0,
                ;
                assert(x == (-q) * (w as int) + 0) by (nonlinear_arith)
                    requires
                        x == q * (-(w as int)),
                ;
                lemma_fundamental_div_mod_converse_mod(x as int, w as int, -q, 0);
            } else {
                assert(x == (-q - 1) * (w as int) + ((w as int) - s)) by (nonlinear_arith)
                    requires
                        -x == (w as int) * q + s,
                ;
                lemma_fundamental_div_mod_converse_mod(x as int, w as int, -q - 1, (w as int) - s);
            }
        }
    }
    r
}

impl Boid {
    /// Add a force into the per-tick accumulator.
    pub fn apply_force(&mut self, f: Vec2i)
        requires
            i64::MIN <= old(self).acceleration.x + f.x <= i64::MAX,
            i64::MIN <= old(self).acceleration.y + f.y <= i64::MAX,
        ensures
            final(self).acceleration.x == old(self).acceleration.x + f.x,
            final(self).acceleration.y == old(self).acceleration.y + f.y,
            final(self).id == old(self).id,
            final(self).position == old(self).position,
            final(self).velocity == old(self).velocity,
            final(self).max_speed == old(self).max_speed,
            final(self).max_force == old(self).max_force,
    {
        self.acceleration = self.acceleration.plus(f);
    }

    /// One integration step: scale the elapsed time to the reference
    /// rate of sixty steps per time unit, add the accumulated force
    /// to the velocity, clamp the speed, move, wrap at the world
    /// edges, and reset the accumulator. The speed never exceeds the
    /// cap afterwards, the position is always back inside the world,
    /// and a zero time step changes neither position nor velocity.
    pub fn update_with_delta(&mut self, dt: i64)
        requires
            old(self).sound(),
            old(self).tuned(),
            old(self).acceleration.within(ACC_MAX as int),
            0 <= dt <= DT_MAX,
        ensures
            final(self).id == old(self).id,
            final(self).max_speed == old(self).max_speed,
            final(self).max_force == old(self).max_force,
            (final(self).velocity.x as int, final(self).velocity.y as int) == vel_upd(
                old(self).vel2(),
                v2p(old(self).acceleration),
                dt as int,
            ),
            (final(self).position.x as int, final(self).position.y as int) == pos_upd(
                old(self).pos2(),
                (final(self).velocity.x as int, final(self).velocity.y as int),
                dt as int,
            ),
            final(self).acceleration.is_zero(),
            vel_ok(final(self).velocity),
            in_world(final(self).position),
            dt == 0 ==> final(self).velocity == old(self).velocity && final(self).position == old(
                self,
            ).position,
    {
        let ts: i64 = dt * 60;
        proof {
            assert(abs_i(self.acceleration.x * ts) <= 1000 * 3200000int && abs_i(
                self.acceleration.y * ts,
            ) <= 1000 * 3200000int) by (nonlinear_arith)
                requires
                    self.acceleration.within(ACC_MAX as int),
                    ACC_MAX == 5200i64,
                    0 <= ts <= 600000,
            ;
            lemma_div_t_le(self.acceleration.x * ts, 1000, 3200000int);
            lemma_div_t_le(self.acceleration.y * ts, 1000, 3200000int);
        }
        let dv = self.acceleration.scale_milli(ts);
        let v1 = self.velocity.plus(dv);
        let v2 = v1.clamp_len_max(self.max_speed);
        self.velocity = v2;
        proof {
            assert(abs_i(v2.x * ts) <= 1000 * 3600000int && abs_i(v2.y * ts) <= 1000
                * 3600000int) by (nonlinear_arith)
                requires
                    v2.within(MAX_SPEED as int),
                    MAX_SPEED == 6000i64,
                    0 <= ts <= 600000,
            ;
            lemma_div_t_le(v2.x * ts, 1000, 3600000int);
            lemma_div_t_le(v2.y * ts, 1000, 3600000int);
        }
        let dp = v2.scale_milli(ts);
        let p1 = self.position.plus(dp);
        let px = wrap_coord(p1.x, WIDTH);
        let py = wrap_coord(p1.y, HEIGHT);
        self.position = Vec2i { x: px, y: py };
        self.acceleration = Vec2i { x: 0, y: 0 };
        proof {
            if dt == 0 {
                lemma_dt_zero_upd(*old(self));
            }
        }
    }

    /// One full tick for this agent: compute the four steering
    /// forces against the candidate neighbor set, accumulate them
    /// with their weights, and integrate.
    #[verifier::rlimit(60)]
    pub fn run_with_delta(&mut self, others: &Vec<Boid>, dt: i64)
        requires
            old(self).wf(),
            ns_ok(others@),
            others@.len() <= NS_MAX,
            0 <= dt <= DT_MAX,
        ensures
            final(self).id == old(self).id,
            final(self).max_speed == old(self).max_speed,
            final(self).max_force == old(self).max_force,
            (final(self).velocity.x as int, final(self).velocity.y as int) == vel_upd(
                old(self).vel2(),
                forces2(*old(self), others@),
                dt as int,
            ),
            (final(self).position.x as int, final(self).position.y as int) == pos_upd(
                old(self).pos2(),
                (final(self).velocity.x as int, final(self).velocity.y as int),
                dt as int,
            ),
            final(self).acceleration.is_zero(),
            vel_ok(final(self).velocity),
            in_world(final(self).position),
            dt == 0 ==> final(self).velocity == old(self).velocity && final(self).position == old(
                self,
            ).position,
    {
        let sep = self.separate(others);
        let ali = self.align(others);
        let coh = self.cohere(others);
        let unb = self.view_unblocking(others);
        proof {
            assert(abs_i(sep.x * W_SEP) <= 1000 * 1800 && abs_i(sep.y * W_SEP) <= 1000
                * 1800) by (nonlinear_arith)
                requires
                    sep.within(900),
                    W_SEP == 2000i64,
            ;
            assert(abs_i(ali.x * W_ALIGN) <= 1000 * 1350 && abs_i(ali.y * W_ALIGN) <= 1000
                * 1350) by (nonlinear_arith)
                requires
                    ali.within(900),
                    W_ALIGN == 1500i64,
            ;
            assert(abs_i(coh.x * W_COHERE) <= 1000 * 1620 && abs_i(coh.y * W_COHERE) <= 1000
                * 1620) by (nonlinear_arith)
                requires
                    coh.within(900),
                    W_COHERE == 1800i64,
            ;
            assert(abs_i(unb.x * W_UNBLOCK) <= 1000 * 360 && abs_i(unb.y * W_UNBLOCK) <= 1000
                * 360) by (nonlinear_arith)
                requires
                    unb.within(900),
                    W_UNBLOCK == 400i64,
            ;
            lemma_div_t_le(sep.x * W_SEP, 1000, 1800);
            lemma_div_t_le(sep.y * W_SEP, 1000, 1800);
            lemma_div_t_le(ali.x * W_ALIGN, 1000, 1350);
            lemma_div_t_le(ali.y * W_ALIGN, 1000, 1350);
            lemma_div_t_le(coh.x * W_COHERE, 1000, 1620);
            lemma_div_t_le(coh.y * W_COHERE, 1000, 1620);
            lemma_div_t_le(unb.x * W_UNBLOCK, 1000, 360);
            lemma_div_t_le(unb.y * W_UNBLOCK, 1000, 360);
        }
        self.apply_force(sep.scale_milli(W_SEP));
        self.apply_force(ali.scale_milli(W_ALIGN));
        self.apply_force(coh.scale_milli(W_COHERE));
        self.apply_force(unb.scale_milli(W_UNBLOCK));
        self.update_with_delta(dt);
    }
}

/// A zero time step leaves velocity and position unchanged, for any
/// accumulated force: the time scale is zero, so nothing is added,
/// the clamp leaves an in-cap velocity as it is, and the wraparound
/// leaves an in-world position as it is.
pub proof fn lemma_dt_zero(b: Boid, f: (int, int))
    requires
        vel_ok(b.velocity),
        in_world(b.position),
    ensures
        vel_upd(b.vel2(), f, 0) == b.vel2(),
        pos_upd(b.pos2(), vel_upd(b.vel2(), f, 0), 0) == b.pos2(),
{
    assert(f.0 * 0 == 0 && f.1 * 0 == 0) by (nonlinear_arith);
    assert(div_t(0, 1000) == 0);
    let v = b.vel2();
    let ms = MAX_SPEED as int;
    assert(plus2(v, scale2(f, 0)) == v);
    if sq2(v) > ms * ms {
        let l = sqrt_f(sq2(v));
        assert(is_sqrt(sq2(v), ms)) by (nonlinear_arith)
            requires
                ms * ms < sq2(v) <= ms * ms + 2 * ms,
                ms >= 1,
        ;
        lemma_sqrt_exists(sq2(v));
        lemma_sqrt_unique(sq2(v), ms, l);
        assert(div_t(v.0 * ms, ms) == v.0 && div_t(v.1 * ms, ms) == v.1) by {
            lemma_mul_div_self(v.0, ms);
            lemma_mul_div_self(v.1, ms);
        }
        assert(clamp2(v, ms) == v);
    }
    assert(vel_upd(v, f, 0) == v);
    let p = b.pos2();
    assert(v.0 * 0 == 0 && v.1 * 0 == 0) by (nonlinear_arith);
    assert(plus2(p, scale2(v, 0)) == p);
    lemma_small_mod(p.0 as nat, WIDTH as nat);
    lemma_small_mod(p.1 as nat, HEIGHT as nat);
}

/// Helper: a zero time step leaves the stored state unchanged, in
/// the form `update_with_delta` needs.
proof fn lemma_dt_zero_upd(b: Boid)
    requires
        vel_ok(b.velocity),
        in_world(b.position),
    ensures
        vel_upd(b.vel2(), v2p(b.acceleration), 0) == b.vel2(),
        pos_upd(b.pos2(), b.vel2(), 0) == b.pos2(),
{
    lemma_dt_zero(b, v2p(b.acceleration));
}

/// Truncating division undoes multiplication by a positive factor.
proof fn lemma_mul_div_self(x: int, d: int)
    requires
        d >= 1,
    ensures
        div_t(x * d, d) == x,
{
    if x >= 0 {
        lemma_div_multiples_vanish(x, d);
        assert(x * d == d * x) by (nonlinear_arith);
    } else {
        lemma_div_multiples_vanish(-x, d);
        assert(-(x * d) == d * (-x)) by (nonlinear_arith);
    }
}

/// A velocity within the cap has a floor norm of at most the
/// maximum speed: after every integration step the speed bound
/// holds in the norm itself, not only in its square.
pub proof fn lemma_vel_ok_norm(v: Vec2i)
    requires
        vel_ok(v),
    ensures
        0 <= v.norm() <= MAX_SPEED,
{
    assert(v.sq_len() >= 0) by (nonlinear_arith);
    lemma_sqrt_exists(v.sq_len());
    let l = sqrt_f(v.sq_len());
    if l > MAX_SPEED {
        assert(l * l > MAX_SPEED * MAX_SPEED + 2 * MAX_SPEED) by (nonlinear_arith)
            requires
                l >= MAX_SPEED + 1,
                MAX_SPEED == 6000i64,
        ;
    }
}

/// Each steering rule returns the exact zero vector when every
/// member of the candidate set is the querying agent itself: with
/// no other agent to react to, nothing pushes.
pub proof fn lemma_alone_zero(b: Boid, ns: Seq<Boid>)
    requires
        forall|i: int| 0 <= i < ns.len() ==> (#[trigger] ns[i]).id == b.id,
    ensures
        separate_sp(b, ns) == (0int, 0int),
        align_sp(b, ns) == (0int, 0int),
        cohere_sp(b, ns) == (0int, 0int),
        unblock_sp(b, ns) == (0int, 0int),
    decreases ns.len(),
{
    if ns.len() == 0 {
    } else {
        assert(forall|i: int|
            0 <= i < ns.drop_last().len() ==> (#[trigger] ns.drop_last()[i]).id == b.id);
        lemma_alone_zero(b, ns.drop_last());
        assert(ns.last().id == b.id);
    }
    assert(sep_acc(b, ns).2 == 0 && align_acc(b, ns).2 == 0 && cohere_acc(b, ns).2 == 0
        && sev_acc(b, ns) == 0) by {
        if ns.len() > 0 {
            lemma_alone_acc_zero(b, ns);
        }
    }
}

/// Helper: the accumulators are empty when every candidate shares
/// the agent's identity.
proof fn lemma_alone_acc_zero(b: Boid, ns: Seq<Boid>)
    requires
        forall|i: int| 0 <= i < ns.len() ==> (#[trigger] ns[i]).id == b.id,
    ensures
        sep_acc(b, ns) == (0int, 0int, 0int),
        align_acc(b, ns) == (0int, 0int, 0int),
        cohere_acc(b, ns) == (0int, 0int, 0int),
        sev_acc(b, ns) == 0,
    decreases ns.len(),
{
    if ns.len() > 0 {
        assert(forall|i: int|
            0 <= i < ns.drop_last().len() ==> (#[trigger] ns.drop_last()[i]).id == b.id);
        lemma_alone_acc_zero(b, ns.drop_last());
        assert(ns.last().id == b.id);
    }
}

/// An agent alone in the world stays put: with zero velocity and no
/// neighbor other than itself, every force is zero, the velocity
/// stays zero and the position does not move, for any time step.
pub proof fn lemma_alone_still(b: Boid, ns: Seq<Boid>, dt: int)
    requires
        b.wf(),
        b.velocity.is_zero(),
        forall|i: int| 0 <= i < ns.len() ==> (#[trigger] ns[i]).id == b.id,
        0 <= dt <= DT_MAX,
    ensures
        vel_upd(b.vel2(), forces2(b, ns), dt) == b.vel2(),
        pos_upd(b.pos2(), vel_upd(b.vel2(), forces2(b, ns), dt), dt) == b.pos2(),
{
    lemma_alone_zero(b, ns);
    let ts = dt * 60;
    assert(0int * W_SEP == 0 && 0int * W_ALIGN == 0 && 0int * W_COHERE == 0 && 0int * W_UNBLOCK
        == 0) by (nonlinear_arith);
    assert(div_t(0, 1000) == 0);
    assert(forces2(b, ns) == (0int, 0int));
    assert(0int * ts == 0) by (nonlinear_arith);
    let v = b.vel2();
    assert(v == (0int, 0int));
    assert(plus2(v, scale2((0int, 0int), ts)) == (0int, 0int));
    assert(sq2((0int, 0int)) == 0);
    assert(vel_upd(v, forces2(b, ns), dt) == (0int, 0int));
    let p = b.pos2();
    assert(plus2(p, scale2((0int, 0int), ts)) == p);
    lemma_small_mod(p.0 as nat, WIDTH as nat);
    lemma_small_mod(p.1 as nat, HEIGHT as nat);
}

} // verus!
