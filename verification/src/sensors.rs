//! What a pilot sees of a match: fourteen signals between minus one and one.
//! Every angle is given as its sine and its cosine, so that no signal jumps
//! where the angle passes half a turn.

use vstd::prelude::*;
use crate::fixed::{
    ONE, fx_div, length, lemma_product_bound, lemma_quot_bound, lemma_scaled_square, quot, ratio,
};
use crate::game::{
    FIRE_COOLDOWN, GameState, GameView, Projectile, Ship, distance_sq, lemma_way_bounds, owned,
    way, way_between,
};
use crate::genome::{Genome, signals_wf};
use crate::trig::{cosine, lemma_pythagoras, lemma_sine_cosine_bounds, sin_cos, sine};
use crate::vector::{DIRECTION_SLACK, direction, unit, unit_pair};
use crate::volley::count_owned;

verus! {

/// The most by which the squares of the two parts of a bearing fall short
/// of one.
pub const BEARING_SLACK: i64 = 11 * ONE;

/// The sine and the cosine of the angle by which the unit vector `u` is
/// off the heading, by the subtraction formulas.
pub open spec fn bearing(u: (int, int), heading: int) -> (int, int) {
    (
        quot(u.1 * cosine(heading) - u.0 * sine(heading), ONE as int),
        quot(u.0 * cosine(heading) + u.1 * sine(heading), ONE as int),
    )
}

/// A distance as a share of five hundred units, at most one.
pub open spec fn remoteness(d: int) -> int {
    if d / 500 < ONE {
        d / 500
    } else {
        ONE as int
    }
}

/// A speed as a share of three hundred units a second, at most one.
pub open spec fn swiftness(v: int) -> int {
    if v / 300 < ONE {
        v / 300
    } else {
        ONE as int
    }
}

/// The way from ship `s` to the projectile `p`.
pub open spec fn way_to(p: Projectile, s: Ship) -> (int, int) {
    way(p.x as int, p.y as int, s.x as int, s.y as int)
}

/// The square of the distance between ship `s` and the projectile `p`.
pub open spec fn threat_sq(p: Projectile, s: Ship) -> int {
    distance_sq(p.x as int, p.y as int, s.x as int, s.y as int)
}

/// The index of the nearest among the first `upto` projectiles that ship
/// `who` does not own, the earliest of them if several are as near; or
/// `-1` if it owns them all.
pub open spec fn nearest_threat(projectiles: Seq<Projectile>, who: int, s: Ship, upto: int) -> int
    decreases upto,
{
    if upto <= 0 {
        -1
    } else if projectiles[upto - 1].owner != who && (nearest_threat(projectiles, who, s, upto - 1)
        < 0 || threat_sq(projectiles[upto - 1], s) < threat_sq(
        projectiles[nearest_threat(projectiles, who, s, upto - 1)],
        s,
    )) {
        upto - 1
    } else {
        nearest_threat(projectiles, who, s, upto - 1)
    }
}

/// What ship `s` sees of the projectile `p`: how far it is, and the sine
/// and cosine of the angle at which it lies off the heading.
pub open spec fn sighting(p: Projectile, s: Ship) -> (int, int, int) {
    (
        remoteness(length(way_to(p, s).0, way_to(p, s).1)),
        bearing(direction(way_to(p, s).0, way_to(p, s).1), s.rotation as int).0,
        bearing(direction(way_to(p, s).0, way_to(p, s).1), s.rotation as int).1,
    )
}

/// What ship `who` sees of the nearest projectile of its opponent; where
/// there is none, a projectile far away and dead ahead.
pub open spec fn threat(s: GameView, who: int) -> (int, int, int) {
    if nearest_threat(s.projectiles, who, s.ships[who], s.projectiles.len() as int) < 0 {
        (ONE as int, 0, ONE as int)
    } else {
        sighting(
            s.projectiles[nearest_threat(
                s.projectiles,
                who,
                s.ships[who],
                s.projectiles.len() as int,
            )],
            s.ships[who],
        )
    }
}

/// The way from ship `who` to its opponent.
pub open spec fn way_to_opponent(s: GameView, who: int) -> (int, int) {
    way(
        s.ships[1 - who].x as int,
        s.ships[1 - who].y as int,
        s.ships[who].x as int,
        s.ships[who].y as int,
    )
}

/// The distance from ship `who` to its opponent, but at least one unit.
pub open spec fn range(s: GameView, who: int) -> int {
    if length(way_to_opponent(s, who).0, way_to_opponent(s, who).1) < ONE {
        ONE as int
    } else {
        length(way_to_opponent(s, who).0, way_to_opponent(s, who).1)
    }
}

/// Sine and cosine of the angle at which the opponent lies off the heading
/// of ship `who`.
pub open spec fn aim(s: GameView, who: int) -> (int, int) {
    bearing(
        direction(way_to_opponent(s, who).0, way_to_opponent(s, who).1),
        s.ships[who].rotation as int,
    )
}

/// Sine and cosine of the angle by which the opponent's heading is off the
/// way from it to ship `who`: zero where it faces the ship.
pub open spec fn facing(s: GameView, who: int) -> (int, int) {
    (
        -bearing(
            (
                -direction(way_to_opponent(s, who).0, way_to_opponent(s, who).1).0,
                -direction(way_to_opponent(s, who).0, way_to_opponent(s, who).1).1,
            ),
            s.ships[1 - who].rotation as int,
        ).0,
        bearing(
            (
                -direction(way_to_opponent(s, who).0, way_to_opponent(s, who).1).0,
                -direction(way_to_opponent(s, who).0, way_to_opponent(s, who).1).1,
            ),
            s.ships[1 - who].rotation as int,
        ).1,
    )
}

/// The speed of a ship.
pub open spec fn speed(s: Ship) -> int {
    length(s.vx as int, s.vy as int)
}

/// Sine and cosine of the angle by which a ship's course is off its
/// heading; those of no angle for a ship slower than one unit a second.
pub open spec fn drift(s: Ship) -> (int, int) {
    if speed(s) > ONE {
        bearing(direction(s.vx as int, s.vy as int), s.rotation as int)
    } else {
        (0, ONE as int)
    }
}

/// How much of its cooldown a ship still has to wait, at most one.
pub open spec fn wait(s: Ship) -> int {
    if ratio(s.fire_cooldown as int, FIRE_COOLDOWN as int) < ONE {
        ratio(s.fire_cooldown as int, FIRE_COOLDOWN as int)
    } else {
        ONE as int
    }
}

/// The share of its projectiles that ship `who` has in flight.
pub open spec fn load(s: GameView, who: int) -> int {
    owned(s.projectiles, who) as int * 240_000
}

/// Whether the four angles among the signals are each given as a sine and a
/// cosine: as a unit vector but for rounding.
pub open spec fn angles_are_pairs(signals: Seq<i64>) -> bool {
    &&& unit_pair(signals[1] as int, signals[2] as int, BEARING_SLACK as int)
    &&& unit_pair(signals[3] as int, signals[4] as int, BEARING_SLACK as int)
    &&& unit_pair(signals[8] as int, signals[9] as int, BEARING_SLACK as int)
    &&& unit_pair(signals[10] as int, signals[11] as int, BEARING_SLACK as int)
}

/// The fourteen signals that the pilot of ship `who` gets.
#[verifier::opaque]
pub open spec fn sensed(s: GameView, who: int) -> Seq<i64> {
    seq![
        remoteness(range(s, who)) as i64,
        aim(s, who).0 as i64,
        aim(s, who).1 as i64,
        facing(s, who).0 as i64,
        facing(s, who).1 as i64,
        swiftness(speed(s.ships[who])) as i64,
        swiftness(speed(s.ships[1 - who])) as i64,
        threat(s, who).0 as i64,
        threat(s, who).1 as i64,
        threat(s, who).2 as i64,
        drift(s.ships[who]).0 as i64,
        drift(s.ships[who]).1 as i64,
        wait(s.ships[who]) as i64,
        load(s, who) as i64,
    ]
}

/// The squares of the two products of the subtraction formulas add up to
/// the product of the squares of the two vectors.
pub proof fn lemma_lagrange(a: int, b: int, s: int, c: int)
    ensures
        (b * c - a * s) * (b * c - a * s) + (a * c + b * s) * (a * c + b * s) == (a * a + b * b) * (
        s * s + c * c),
{
    let bc = b * c;
    let az = a * s;
    let ac = a * c;
    let bs = b * s;
    assert((bc - az) * (bc - az) == bc * bc - 2 * (bc * az) + az * az) by (nonlinear_arith);
    assert((ac + bs) * (ac + bs) == ac * ac + 2 * (ac * bs) + bs * bs) by (nonlinear_arith);
    assert(bc * az == ac * bs) by (nonlinear_arith)
        requires
            bc == b * c,
            az == a * s,
            ac == a * c,
            bs == b * s,
    ;
    assert(bc * bc == (b * b) * (c * c)) by (nonlinear_arith)
        requires
            bc == b * c,
    ;
    assert(az * az == (a * a) * (s * s)) by (nonlinear_arith)
        requires
            az == a * s,
    ;
    assert(ac * ac == (a * a) * (c * c)) by (nonlinear_arith)
        requires
            ac == a * c,
    ;
    assert(bs * bs == (b * b) * (s * s)) by (nonlinear_arith)
        requires
            bs == b * s,
    ;
    let aa = a * a;
    let bb = b * b;
    let ss = s * s;
    let cc = c * c;
    assert((aa + bb) * (ss + cc) == aa * ss + aa * cc + bb * ss + bb * cc) by (nonlinear_arith);
}

/// A bearing is the sine and the cosine of one angle but for rounding:
/// neither part exceeds one, and their squares add up to one, less at most
/// `BEARING_SLACK` of the square of the unit, which is less than a hundred
/// thousandth of it.
pub proof fn lemma_bearing(u: (int, int), heading: int)
    requires
        -ONE <= u.0 <= ONE,
        -ONE <= u.1 <= ONE,
        unit_pair(u.0, u.1, DIRECTION_SLACK as int),
    ensures
        -2 * (ONE * ONE) <= u.1 * cosine(heading) - u.0 * sine(heading) <= 2 * (ONE * ONE),
        -2 * (ONE * ONE) <= u.0 * cosine(heading) + u.1 * sine(heading) <= 2 * (ONE * ONE),
        ONE * ONE == 1_440_000_000_000,
        -ONE <= bearing(u, heading).0 <= ONE,
        -ONE <= bearing(u, heading).1 <= ONE,
        unit_pair(bearing(u, heading).0, bearing(u, heading).1, BEARING_SLACK as int),
        unit_pair(-bearing(u, heading).0, bearing(u, heading).1, BEARING_SLACK as int),
        100_000 * BEARING_SLACK < ONE * ONE,
{
    let one = ONE as int;
    let one2 = one * one;
    assert(one2 == 1_440_000_000_000) by (nonlinear_arith)
        requires
            one == 1_200_000,
            one2 == one * one,
    ;
    let s = sine(heading);
    let c = cosine(heading);
    lemma_sine_cosine_bounds(heading);
    lemma_pythagoras(heading);
    lemma_product_bound(u.1, c, one, one);
    lemma_product_bound(u.0, s, one, one);
    lemma_product_bound(u.0, c, one, one);
    lemma_product_bound(u.1, s, one, one);
    let big_p = u.1 * c - u.0 * s;
    let big_q = u.0 * c + u.1 * s;
    let uu = u.0 * u.0 + u.1 * u.1;
    let tt = s * s + c * c;
    lemma_lagrange(u.0, u.1, s, c);
    assert(uu * tt <= one2 * one2) by (nonlinear_arith)
        requires
            0 <= uu <= one2,
            0 <= tt <= one2,
    ;
    assert(uu * tt >= (one2 - 7_201_922) * one2) by (nonlinear_arith)
        requires
            one2 - 4_801_922 <= uu,
            one2 - 2_400_000 <= tt,
            one2 == 1_440_000_000_000,
    ;
    let p = bearing(u, heading).0;
    let q = bearing(u, heading).1;
    lemma_scaled_square(big_p, 1, one);
    lemma_scaled_square(big_q, 1, one);
    assert(big_p * 1 == big_p && big_q * 1 == big_q && (big_p * big_p) * (1 * 1) == big_p * big_p
        && (big_q * big_q) * (1 * 1) == big_q * big_q) by (nonlinear_arith);
    let a = quot(if big_p >= 0 { big_p * 1 } else { -(big_p * 1) }, one);
    let b = quot(if big_q >= 0 { big_q * 1 } else { -(big_q * 1) }, one);
    let pp = p * p;
    let qq = q * q;
    assert(pp >= 0 && qq >= 0) by (nonlinear_arith)
        requires
            pp == p * p,
            qq == q * q,
    ;
    assert((pp + qq) * one2 <= one2 * one2) by (nonlinear_arith)
        requires
            pp * one2 <= big_p * big_p,
            qq * one2 <= big_q * big_q,
            big_p * big_p + big_q * big_q <= one2 * one2,
    ;
    assert(pp + qq <= one2) by (nonlinear_arith)
        requires
            (pp + qq) * one2 <= one2 * one2,
            one2 > 0,
    ;
    assert(-one <= p <= one && -one <= q <= one && a <= one && b <= one) by (nonlinear_arith)
        requires
            p * p <= one2,
            q * q <= one2,
            a * a <= one2,
            b * b <= one2,
            a >= 0,
            b >= 0,
            one2 == one * one,
            one > 0,
    ;
    assert((pp + qq + 2 * (a + b) + 2) * one2 > (one2 - 7_201_922) * one2) by (nonlinear_arith)
        requires
            (pp + 2 * a + 1) * one2 > big_p * big_p,
            (qq + 2 * b + 1) * one2 > big_q * big_q,
            big_p * big_p + big_q * big_q >= (one2 - 7_201_922) * one2,
    ;
    assert(pp + qq + 2 * (a + b) + 2 > one2 - 7_201_922) by (nonlinear_arith)
        requires
            (pp + qq + 2 * (a + b) + 2) * one2 > (one2 - 7_201_922) * one2,
            one2 > 0,
    ;
    assert((-p) * (-p) == p * p) by (nonlinear_arith);
}

/// What `nearest_threat` finds is a projectile of the opponent that is
/// nearer than those before it and as near as any after it; it finds none
/// only where the opponent has none.
pub proof fn lemma_nearest_threat(projectiles: Seq<Projectile>, who: int, s: Ship, upto: int)
    requires
        0 <= upto <= projectiles.len(),
    ensures
        -1 <= nearest_threat(projectiles, who, s, upto) < upto,
        nearest_threat(projectiles, who, s, upto) >= 0 ==> projectiles[nearest_threat(
            projectiles,
            who,
            s,
            upto,
        )].owner != who,
        forall|j: int|
            0 <= j < upto && (#[trigger] projectiles[j]).owner != who ==> {
                &&& nearest_threat(projectiles, who, s, upto) >= 0
                &&& threat_sq(projectiles[nearest_threat(projectiles, who, s, upto)], s)
                    <= threat_sq(projectiles[j], s)
                &&& j < nearest_threat(projectiles, who, s, upto) ==> threat_sq(
                    projectiles[nearest_threat(projectiles, who, s, upto)],
                    s,
                ) < threat_sq(projectiles[j], s)
            },
    decreases upto,
{
    if upto > 0 {
        lemma_nearest_threat(projectiles, who, s, upto - 1);
    }
}

/// Computes the sine and the cosine of the angle by which the unit vector
/// `(ux, uy)` is off the heading.
pub fn bearing_of(ux: i64, uy: i64, heading: i64) -> (b: (i64, i64))
    requires
        -ONE <= ux <= ONE,
        -ONE <= uy <= ONE,
        unit_pair(ux as int, uy as int, DIRECTION_SLACK as int),
    ensures
        b.0 == bearing((ux as int, uy as int), heading as int).0,
        b.1 == bearing((ux as int, uy as int), heading as int).1,
        -ONE <= b.0 <= ONE,
        -ONE <= b.1 <= ONE,
        unit_pair(b.0 as int, b.1 as int, BEARING_SLACK as int),
        unit_pair(-b.0, b.1 as int, BEARING_SLACK as int),
{
    proof {
        lemma_bearing((ux as int, uy as int), heading as int);
        lemma_sine_cosine_bounds(heading as int);
    }
    let (sin, cos) = sin_cos(heading);
    proof {
        lemma_product_bound(uy as int, cos as int, ONE as int, ONE as int);
        lemma_product_bound(ux as int, sin as int, ONE as int, ONE as int);
        lemma_product_bound(ux as int, cos as int, ONE as int, ONE as int);
        lemma_product_bound(uy as int, sin as int, ONE as int, ONE as int);
    }
    ((uy * cos - ux * sin) / ONE, (ux * cos + uy * sin) / ONE)
}

/// A distance as a share of five hundred units, at most one.
pub fn remoteness_of(d: i64) -> (r: i64)
    requires
        d >= 0,
    ensures
        r == remoteness(d as int),
        0 <= r <= ONE,
{
    if d / 500 < ONE {
        d / 500
    } else {
        ONE
    }
}

/// A speed as a share of three hundred units a second, at most one.
pub fn swiftness_of(v: i64) -> (r: i64)
    requires
        v >= 0,
    ensures
        r == swiftness(v as int),
        0 <= r <= ONE,
{
    if v / 300 < ONE {
        v / 300
    } else {
        ONE
    }
}

/// Looks for the nearest projectile of the opponent of ship `ship_idx`.
/// Returns how far it is and the sine and cosine of the angle at which it
/// lies off the heading.
pub fn nearest_enemy_bullet(state: &GameState, ship_idx: usize) -> (t: (i64, i64, i64))
    requires
        state.wf(),
        ship_idx < 2,
    ensures
        t.0 == threat(state@, ship_idx as int).0,
        t.1 == threat(state@, ship_idx as int).1,
        t.2 == threat(state@, ship_idx as int).2,
        0 <= t.0 <= ONE,
        -ONE <= t.1 <= ONE,
        -ONE <= t.2 <= ONE,
        unit_pair(t.1 as int, t.2 as int, BEARING_SLACK as int),
{
    proof {
        assert(0 * 0 + ONE * ONE == ONE * ONE);
    }
    let ship: Ship = state.ships[ship_idx];
    let mut found: bool = false;
    let mut best: usize = 0;
    let mut best_sq: i64 = 0;
    let mut i: usize = 0;
    while i < state.projectiles.len()
        invariant
            i <= state.projectiles@.len(),
            state.wf(),
            ship_idx < 2,
            ship == state.ships[ship_idx as int],
            found <==> nearest_threat(state.projectiles@, ship_idx as int, ship, i as int) >= 0,
            found ==> best == nearest_threat(state.projectiles@, ship_idx as int, ship, i as int),
            found ==> best < i,
            found ==> best_sq == threat_sq(state.projectiles@[best as int], ship),
        decreases state.projectiles@.len() - i,
    {
        let p: Projectile = state.projectiles[i];
        assert(p.wf());
        if p.owner != ship_idx {
            let (_dx, _dy, dist_sq) = way_between(p.x, p.y, ship.x, ship.y);
            if !found || dist_sq < best_sq {
                found = true;
                best = i;
                best_sq = dist_sq;
            }
        }
        i = i + 1;
    }
    if !found {
        (ONE, 0, ONE)
    } else {
        let p: Projectile = state.projectiles[best];
        assert(p.wf());
        proof {
            lemma_way_bounds(p.x as int, p.y as int, ship.x as int, ship.y as int);
        }
        let (dx, dy, _dist_sq) = way_between(p.x, p.y, ship.x, ship.y);
        let (ux, uy, len) = unit(dx, dy);
        let (sin, cos) = bearing_of(ux, uy, ship.rotation);
        (remoteness_of(len), sin, cos)
    }
}

impl Genome {
    /// Gathers the signals that the pilot of ship `ship_idx` gets.
    pub fn get_inputs(state: &GameState, ship_idx: usize) -> (out: [i64; 14])
        requires
            state.wf(),
            ship_idx < 2,
        ensures
            out@ == sensed(state@, ship_idx as int),
            forall|i: int| 0 <= i < 14 ==> -ONE <= #[trigger] out[i] <= ONE,
            signals_wf(out@),
            unit_pair(out[1] as int, out[2] as int, BEARING_SLACK as int),
            unit_pair(out[3] as int, out[4] as int, BEARING_SLACK as int),
            unit_pair(out[8] as int, out[9] as int, BEARING_SLACK as int),
            unit_pair(out[10] as int, out[11] as int, BEARING_SLACK as int),
    {
        proof {
            assert(0 * 0 + ONE * ONE == ONE * ONE);
        }
        let ship: Ship = state.ships[ship_idx];
        let opp: Ship = state.ships[1 - ship_idx];
        proof {
            lemma_way_bounds(opp.x as int, opp.y as int, ship.x as int, ship.y as int);
        }
        let (dx, dy, _dist_sq) = way_between(opp.x, opp.y, ship.x, ship.y);
        let (ux, uy, len) = unit(dx, dy);
        let dist: i64 = if len < ONE {
            ONE
        } else {
            len
        };
        let (aim_sin, aim_cos) = bearing_of(ux, uy, ship.rotation);
        proof {
            assert((-ux) * (-ux) == ux * ux && (-uy) * (-uy) == uy * uy) by (nonlinear_arith);
        }
        let (back_sin, back_cos) = bearing_of(-ux, -uy, opp.rotation);
        let (vx, vy, own_speed) = unit(ship.vx, ship.vy);
        let (drift_sin, drift_cos) = if own_speed > ONE {
            bearing_of(vx, vy, ship.rotation)
        } else {
            (0, ONE)
        };
        let (_ox, _oy, opp_speed) = unit(opp.vx, opp.vy);
        let (bullet_dist, bullet_sin, bullet_cos) = nearest_enemy_bullet(state, ship_idx);
        proof {
            lemma_product_bound(
                ship.fire_cooldown as int,
                ONE as int,
                FIRE_COOLDOWN as int,
                ONE as int,
            );
            lemma_quot_bound(
                ship.fire_cooldown * ONE,
                FIRE_COOLDOWN as int,
                FIRE_COOLDOWN * ONE,
            );
        }
        let ready_in: i64 = fx_div(ship.fire_cooldown, FIRE_COOLDOWN);
        let cooldown_norm: i64 = if ready_in < ONE {
            ready_in
        } else {
            ONE
        };
        let own_projectiles: usize = count_owned(&state.projectiles, ship_idx);
        let projectile_norm: i64 = own_projectiles as i64 * 240_000;
        let out: [i64; 14] = [
            remoteness_of(dist),
            aim_sin,
            aim_cos,
            -back_sin,
            back_cos,
            swiftness_of(own_speed),
            swiftness_of(opp_speed),
            bullet_dist,
            bullet_sin,
            bullet_cos,
            drift_sin,
            drift_cos,
            cooldown_norm,
            projectile_norm,
        ];
        proof {
            reveal(sensed);
            assert(out@ =~= sensed(state@, ship_idx as int));
        }
        out
    }
}

} // verus!
