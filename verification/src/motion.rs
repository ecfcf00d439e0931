//! How one ship moves during a step: it turns, thrusts along its heading,
//! loses speed to drag, is held to the speed cap, and drifts on.

use vstd::prelude::*;
use crate::activation::{power, raise, lemma_power_bounds};
use crate::fixed::{
    LIMIT, ONE, clamp, clamped, fx_mul, in_reach, length, lemma_product_bound, lemma_root_up,
    lemma_scaled_square, lemma_times_shrinks, lemma_times_stretches, measure, quot, residue,
    scale, times,
};
use crate::game::{
    ARENA_HEIGHT, ARENA_WIDTH, MAX_SHIP_SPEED, MAX_STEP, SHIP_DRAG, SHIP_ROTATION_SPEED,
    SHIP_THRUST, SHIP_VELOCITY_LIMIT, Ship, wrap, wrapped,
};
use crate::trig::{FULL_TURN, cosine, lemma_sine_cosine_bounds, sin_cos, sine};

verus! {

/// A fire signal above this value pulls the trigger.
pub const FIRE_THRESHOLD: i64 = 600_000;

/// The square of the speed cap.
pub const MAX_SHIP_SPEED_SQ: u64 = 129_600_000_000_000_000;

/// What a pilot asks of its ship for one step.
#[derive(Clone, Copy, Debug)]
pub struct Controls {
    pub thrust: i64,
    pub turn_left: i64,
    pub turn_right: i64,
    pub fire: bool,
}

impl Controls {
    /// Thrust and both turn signals lie between zero and one.
    pub open spec fn wf(self) -> bool {
        &&& 0 <= self.thrust <= ONE
        &&& 0 <= self.turn_left <= ONE
        &&& 0 <= self.turn_right <= ONE
    }

    /// The controls that four raw signals stand for: thrust and the two turn
    /// signals limited to the interval from zero to one, and the trigger
    /// pulled where the fourth signal exceeds a half.
    pub open spec fn of(signals: Seq<i64>) -> Controls {
        Controls {
            thrust: clamped(signals[0] as int, 0, ONE as int) as i64,
            turn_left: clamped(signals[1] as int, 0, ONE as int) as i64,
            turn_right: clamped(signals[2] as int, 0, ONE as int) as i64,
            fire: signals[3] > FIRE_THRESHOLD,
        }
    }

    /// Reads the controls from four raw signals.
    pub fn read(signals: &[i64; 4]) -> (c: Controls)
        ensures
            c == Controls::of(signals@),
            c.wf(),
    {
        Controls {
            thrust: clamp(signals[0], 0, ONE),
            turn_left: clamp(signals[1], 0, ONE),
            turn_right: clamp(signals[2], 0, ONE),
            fire: signals[3] > FIRE_THRESHOLD,
        }
    }
}

/// The factor that a velocity keeps over the span `dt`: `SHIP_DRAG` to the
/// power of the sixtieths of a second that have passed. Whole sixtieths
/// compound; over the rest the factor falls in a straight line from one to
/// `SHIP_DRAG`.
pub open spec fn drag_over(dt: int) -> int {
    times(
        power(SHIP_DRAG as int, ((60 * dt) / (ONE as int)) as nat),
        ONE - times((60 * dt) % (ONE as int), ONE - SHIP_DRAG),
    )
}

/// The velocity `(vx, vy)` held to the speed cap: unchanged where it is no
/// faster, else scaled down to it.
pub open spec fn capped(vx: int, vy: int) -> (int, int) {
    if vx * vx + vy * vy > MAX_SHIP_SPEED * MAX_SHIP_SPEED {
        (quot(vx * MAX_SHIP_SPEED, length(vx, vy)), quot(vy * MAX_SHIP_SPEED, length(vx, vy)))
    } else {
        (vx, vy)
    }
}

impl Ship {
    /// The heading after the step: the old one, turned by the difference of
    /// the two turn signals.
    pub open spec fn heading_after(self, c: Controls, dt: int) -> int {
        (self.rotation + times(times(c.turn_right - c.turn_left, SHIP_ROTATION_SPEED as int), dt))
            % (FULL_TURN as int)
    }

    /// The speed that the thrust adds along the heading.
    pub open spec fn impulse(c: Controls, dt: int) -> int {
        times(times(c.thrust as int, SHIP_THRUST as int), dt)
    }

    /// The velocity after thrust and drag, before the cap.
    pub open spec fn velocity_uncapped(self, c: Controls, dt: int) -> (int, int) {
        (
            times(
                self.vx + times(cosine(self.heading_after(c, dt)), Self::impulse(c, dt)),
                drag_over(dt),
            ),
            times(
                self.vy + times(sine(self.heading_after(c, dt)), Self::impulse(c, dt)),
                drag_over(dt),
            ),
        )
    }

    /// The velocity after the step.
    pub open spec fn velocity_after(self, c: Controls, dt: int) -> (int, int) {
        capped(self.velocity_uncapped(c, dt).0, self.velocity_uncapped(c, dt).1)
    }

    /// The ship after a step of `dt` under the controls `c`, the trigger
    /// left aside.
    pub open spec fn advanced(self, c: Controls, dt: int) -> Ship {
        Ship {
            x: wrapped(self.x + times(self.velocity_after(c, dt).0, dt), ARENA_WIDTH as int) as i64,
            y: wrapped(self.y + times(self.velocity_after(c, dt).1, dt), ARENA_HEIGHT as int) as i64,
            vx: self.velocity_after(c, dt).0 as i64,
            vy: self.velocity_after(c, dt).1 as i64,
            rotation: self.heading_after(c, dt) as i64,
            alive: self.alive,
            fire_cooldown: (if self.fire_cooldown > dt {
                self.fire_cooldown - dt
            } else {
                0
            }) as i64,
            shots_fired: self.shots_fired,
            hits_scored: self.hits_scored,
        }
    }
}

/// Drag never speeds a ship up, nor turns it round.
pub proof fn lemma_drag_bounds(dt: int)
    requires
        0 <= dt <= MAX_STEP,
    ensures
        0 <= drag_over(dt) <= ONE,
        0 <= ONE - times((60 * dt) % (ONE as int), ONE - SHIP_DRAG) <= ONE,
        0 <= power(SHIP_DRAG as int, ((60 * dt) / (ONE as int)) as nat) <= ONE,
{
    let whole = ((60 * dt) / (ONE as int)) as nat;
    let part = (60 * dt) % (ONE as int);
    lemma_power_bounds(SHIP_DRAG as int, whole);
    lemma_times_shrinks(part, ONE - SHIP_DRAG, ONE as int);
    lemma_times_shrinks(ONE - SHIP_DRAG, part, ONE as int);
    lemma_times_shrinks(
        power(SHIP_DRAG as int, whole),
        ONE - times(part, ONE - SHIP_DRAG),
        ONE as int,
    );
}

/// Over one sixtieth of a second the drag is `SHIP_DRAG` itself.
pub proof fn lemma_drag_per_tick()
    ensures
        drag_over(ONE / 60) == SHIP_DRAG,
{
    reveal_with_fuel(power, 3);
    assert(times(ONE as int, SHIP_DRAG as int) == SHIP_DRAG);
    assert(times(0, ONE - SHIP_DRAG) == 0);
    assert(times(SHIP_DRAG as int, ONE as int) == SHIP_DRAG);
}

/// A vector whose square is at most that of `m` has no component beyond `m`.
pub proof fn lemma_component_bound(x: int, y: int, m: int)
    by (nonlinear_arith)
    requires
        m >= 0,
        x * x + y * y <= m * m,
    ensures
        -m <= x <= m,
        -m <= y <= m,
{
}

/// A capped velocity is no faster than the cap.
pub proof fn lemma_capped(vx: int, vy: int)
    ensures
        capped(vx, vy).0 * capped(vx, vy).0 + capped(vx, vy).1 * capped(vx, vy).1 <= MAX_SHIP_SPEED
            * MAX_SHIP_SPEED,
        -MAX_SHIP_SPEED <= capped(vx, vy).0 <= MAX_SHIP_SPEED,
        -MAX_SHIP_SPEED <= capped(vx, vy).1 <= MAX_SHIP_SPEED,
        vx * vx + vy * vy > MAX_SHIP_SPEED * MAX_SHIP_SPEED ==> length(vx, vy) > 0,
{
    let m = MAX_SHIP_SPEED as int;
    let cx = capped(vx, vy).0;
    let cy = capped(vx, vy).1;
    if vx * vx + vy * vy > m * m {
        let l = length(vx, vy);
        lemma_root_up(vx * vx + vy * vy);
        assert(l > 0) by (nonlinear_arith)
            requires
                l >= 0,
                l * l >= vx * vx + vy * vy,
                vx * vx + vy * vy > m * m,
        ;
        lemma_scaled_square(vx, m, l);
        lemma_scaled_square(vy, m, l);
        let a = cx * cx;
        let b = cy * cy;
        let l2 = l * l;
        let m2 = m * m;
        let n = vx * vx + vy * vy;
        assert(l2 > 0 && m2 >= 0) by (nonlinear_arith)
            requires
                l > 0,
                l2 == l * l,
                m2 == m * m,
        ;
        assert((a + b) * l2 <= n * m2) by (nonlinear_arith)
            requires
                a * l2 <= (vx * vx) * m2,
                b * l2 <= (vy * vy) * m2,
                n == vx * vx + vy * vy,
        ;
        assert(n * m2 <= l2 * m2) by (nonlinear_arith)
            requires
                n <= l2,
                m2 >= 0,
        ;
        assert(a + b <= m2) by (nonlinear_arith)
            requires
                (a + b) * l2 <= l2 * m2,
                l2 > 0,
        ;
    }
    lemma_component_bound(cx, cy, m);
}

/// The bounds that a step keeps: the uncapped velocity is within reach of
/// the arithmetic, and the ship after the step is well-formed and no faster
/// than the cap.
pub proof fn lemma_advanced(ship: Ship, c: Controls, dt: int)
    requires
        ship.wf(),
        c.wf(),
        0 <= dt <= MAX_STEP,
    ensures
        -5 * SHIP_ROTATION_SPEED <= times(
            times(c.turn_right - c.turn_left, SHIP_ROTATION_SPEED as int),
            dt,
        ) <= 5 * SHIP_ROTATION_SPEED,
        -SHIP_ROTATION_SPEED <= times(c.turn_right - c.turn_left, SHIP_ROTATION_SPEED as int)
            <= SHIP_ROTATION_SPEED,
        0 <= times(c.thrust as int, SHIP_THRUST as int) <= SHIP_THRUST,
        0 <= Ship::impulse(c, dt) <= 5 * SHIP_THRUST,
        in_reach(ship.velocity_uncapped(c, dt).0),
        in_reach(ship.velocity_uncapped(c, dt).1),
        -MAX_SHIP_SPEED <= ship.velocity_after(c, dt).0 <= MAX_SHIP_SPEED,
        -MAX_SHIP_SPEED <= ship.velocity_after(c, dt).1 <= MAX_SHIP_SPEED,
        -5 * MAX_SHIP_SPEED <= times(ship.velocity_after(c, dt).0, dt) <= 5 * MAX_SHIP_SPEED,
        -5 * MAX_SHIP_SPEED <= times(ship.velocity_after(c, dt).1, dt) <= 5 * MAX_SHIP_SPEED,
        ship.advanced(c, dt).wf(),
        ship.advanced(c, dt).speed_sq() <= MAX_SHIP_SPEED * MAX_SHIP_SPEED,
{
    let turn = c.turn_right - c.turn_left;
    let rate = times(turn, SHIP_ROTATION_SPEED as int);
    lemma_times_shrinks(SHIP_ROTATION_SPEED as int, turn, SHIP_ROTATION_SPEED as int);
    assert(rate == times(SHIP_ROTATION_SPEED as int, turn)) by (nonlinear_arith)
        requires
            rate == times(turn, SHIP_ROTATION_SPEED as int),
    ;
    lemma_times_stretches(rate, dt, SHIP_ROTATION_SPEED as int, 5);
    let force = times(c.thrust as int, SHIP_THRUST as int);
    lemma_times_shrinks(SHIP_THRUST as int, c.thrust as int, SHIP_THRUST as int);
    assert(force == times(SHIP_THRUST as int, c.thrust as int)) by (nonlinear_arith)
        requires
            force == times(c.thrust as int, SHIP_THRUST as int),
    ;
    lemma_times_stretches(force, dt, SHIP_THRUST as int, 5);
    let push = Ship::impulse(c, dt);
    let h = ship.heading_after(c, dt);
    lemma_sine_cosine_bounds(h);
    lemma_times_shrinks(push, cosine(h), 5 * SHIP_THRUST);
    lemma_times_shrinks(push, sine(h), 5 * SHIP_THRUST);
    assert(times(cosine(h), push) == times(push, cosine(h))) by (nonlinear_arith);
    assert(times(sine(h), push) == times(push, sine(h))) by (nonlinear_arith);
    lemma_drag_bounds(dt);
    let reach = SHIP_VELOCITY_LIMIT + 5 * SHIP_THRUST;
    lemma_times_shrinks(ship.vx + times(cosine(h), push), drag_over(dt), reach);
    lemma_times_shrinks(ship.vy + times(sine(h), push), drag_over(dt), reach);
    let ux = ship.velocity_uncapped(c, dt).0;
    let uy = ship.velocity_uncapped(c, dt).1;
    lemma_capped(ux, uy);
    let vx = ship.velocity_after(c, dt).0;
    let vy = ship.velocity_after(c, dt).1;
    lemma_times_stretches(vx, dt, MAX_SHIP_SPEED as int, 5);
    lemma_times_stretches(vy, dt, MAX_SHIP_SPEED as int, 5);
}

/// Computes the drag factor of a step.
pub fn drag_factor(dt: i64) -> (f: i64)
    requires
        0 <= dt <= MAX_STEP,
    ensures
        f == drag_over(dt as int),
        0 <= f <= ONE,
{
    proof {
        lemma_drag_bounds(dt as int);
    }
    let ticks: i64 = 60 * dt;
    let whole: i64 = ticks / ONE;
    let part: i64 = ticks % ONE;
    fx_mul(raise(SHIP_DRAG, whole as u64), ONE - fx_mul(part, ONE - SHIP_DRAG))
}

/// Holds a velocity to the speed cap.
pub fn cap_speed(vx: i64, vy: i64) -> (v: (i64, i64))
    requires
        in_reach(vx as int),
        in_reach(vy as int),
    ensures
        v.0 == capped(vx as int, vy as int).0,
        v.1 == capped(vx as int, vy as int).1,
        v.0 * v.0 + v.1 * v.1 <= MAX_SHIP_SPEED * MAX_SHIP_SPEED,
{
    proof {
        lemma_capped(vx as int, vy as int);
        lemma_product_bound(vx as int, vx as int, LIMIT as int, LIMIT as int);
        lemma_product_bound(vy as int, vy as int, LIMIT as int, LIMIT as int);
        assert(vx * vx >= 0 && vy * vy >= 0) by (nonlinear_arith);
        assert(MAX_SHIP_SPEED_SQ == MAX_SHIP_SPEED * MAX_SHIP_SPEED) by (nonlinear_arith);
    }
    let xx: u64 = (vx * vx) as u64;
    let yy: u64 = (vy * vy) as u64;
    if xx + yy > MAX_SHIP_SPEED_SQ {
        let l: i64 = measure(vx, vy);
        (scale(vx, MAX_SHIP_SPEED, l), scale(vy, MAX_SHIP_SPEED, l))
    } else {
        (vx, vy)
    }
}

impl Ship {
    /// Moves the ship through a step of `dt` under the controls `c`.
    pub fn advance(&self, c: Controls, dt: i64) -> (next: Ship)
        requires
            self.wf(),
            c.wf(),
            0 <= dt <= MAX_STEP,
        ensures
            next == self.advanced(c, dt as int),
            next.wf(),
            next.speed_sq() <= MAX_SHIP_SPEED * MAX_SHIP_SPEED,
    {
        proof {
            lemma_advanced(*self, c, dt as int);
        }
        let rate: i64 = fx_mul(c.turn_right - c.turn_left, SHIP_ROTATION_SPEED);
        let rotation: i64 = residue(self.rotation + fx_mul(rate, dt), FULL_TURN);
        let (sin, cos) = sin_cos(rotation);
        let push: i64 = fx_mul(fx_mul(c.thrust, SHIP_THRUST), dt);
        let drag: i64 = drag_factor(dt);
        proof {
            lemma_times_shrinks(push as int, cos as int, 5 * SHIP_THRUST);
            lemma_times_shrinks(push as int, sin as int, 5 * SHIP_THRUST);
            assert(times(cos as int, push as int) == times(push as int, cos as int))
                by (nonlinear_arith);
            assert(times(sin as int, push as int) == times(push as int, sin as int))
                by (nonlinear_arith);
        }
        let ux: i64 = fx_mul(self.vx + fx_mul(cos, push), drag);
        let uy: i64 = fx_mul(self.vy + fx_mul(sin, push), drag);
        let (vx, vy) = cap_speed(ux, uy);
        Ship {
            x: wrap(self.x + fx_mul(vx, dt), ARENA_WIDTH),
            y: wrap(self.y + fx_mul(vy, dt), ARENA_HEIGHT),
            vx,
            vy,
            rotation,
            alive: self.alive,
            fire_cooldown: if self.fire_cooldown > dt {
                self.fire_cooldown - dt
            } else {
                0
            },
            shots_fired: self.shots_fired,
            hits_scored: self.hits_scored,
        }
    }
}

/// The constants of the cap: its square, and the signal above which the
/// trigger is pulled, which is a half.
pub proof fn lemma_motion_constants()
    ensures
        MAX_SHIP_SPEED_SQ == MAX_SHIP_SPEED * MAX_SHIP_SPEED,
        2 * FIRE_THRESHOLD == ONE,
        100 * SHIP_DRAG == 98 * ONE,
{
    assert(MAX_SHIP_SPEED * MAX_SHIP_SPEED == 129_600_000_000_000_000) by (nonlinear_arith)
        requires
            MAX_SHIP_SPEED == 360_000_000,
    ;
}

} // verus!
