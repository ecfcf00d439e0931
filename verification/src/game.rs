//! The arena, the two ships, their projectiles, and the step that advances a
//! match by a span of time.

use vstd::prelude::*;
use crate::chance::between;
use crate::contact::{bounce, bounced, lemma_contact, touching, within_cap};
use crate::fixed::{ONE, lemma_product_bound};
use crate::motion::{Controls, lemma_advanced, lemma_component_bound};
use crate::strike::{after_strikes, lemma_after_strikes};
use crate::trig::{FULL_TURN, HALF_TURN};
use crate::volley::{
    count, count_owned, fire, fly, in_flight, lemma_in_flight, lemma_owned_push, lemma_shot,
    ready, reloaded, shot,
};
use rand::rngs::StdRng;

verus! {

/// The width of the arena; leaving it on one side is entering it on the
/// other.
pub const ARENA_WIDTH: i64 = 800 * ONE;

/// The height of the arena.
pub const ARENA_HEIGHT: i64 = 600 * ONE;

/// Radians per second at full turn signal.
pub const SHIP_ROTATION_SPEED: i64 = 5 * ONE;

/// Acceleration at full thrust signal.
pub const SHIP_THRUST: i64 = 200 * ONE;

/// The factor that a velocity keeps over one sixtieth of a second: 0.98.
pub const SHIP_DRAG: i64 = 1_176_000;

/// The speed at which a projectile leaves a ship at rest.
pub const PROJECTILE_SPEED: i64 = 400 * ONE;

/// The seconds for which a projectile flies.
pub const PROJECTILE_LIFETIME: i64 = 2 * ONE;

/// The time that a ship waits between two shots: a quarter of a second.
pub const FIRE_COOLDOWN: i64 = 300_000;

/// The seconds after which a match ends in a draw.
pub const MATCH_DURATION: i64 = 30 * ONE;

pub const SHIP_RADIUS: i64 = 12 * ONE;

pub const PROJECTILE_RADIUS: i64 = 2 * ONE;

/// The number of projectiles that a ship may have in flight.
pub const MAX_PROJECTILES_PER_SHIP: usize = 5;

/// The speed cap of a ship.
pub const MAX_SHIP_SPEED: i64 = 300 * ONE;

/// The part of a ship's velocity that its projectile inherits: 0.3.
pub const INHERITED_SHARE: i64 = 360_000;

/// The longest span of time that one step may cover: five seconds. It is
/// set by the arithmetic. Over a longer span, full thrust would add more
/// to the velocity of a ship at `SHIP_VELOCITY_LIMIT` than the products of
/// the fixed-point arithmetic can take (see `lemma_game_constants`).
pub const MAX_STEP: i64 = 5 * ONE;

/// No component of a ship's velocity exceeds this, bounces included.
pub const SHIP_VELOCITY_LIMIT: i64 = 5 * MAX_SHIP_SPEED;

/// No component of a projectile's velocity exceeds this.
pub const PROJECTILE_VELOCITY_LIMIT: i64 = PROJECTILE_SPEED + MAX_SHIP_SPEED;

/// A ship: where it is, how it moves, where it points, and what it has
/// done in this match.
#[derive(Clone, Copy, Debug)]
pub struct Ship {
    pub x: i64,
    pub y: i64,
    pub vx: i64,
    pub vy: i64,
    pub rotation: i64,
    pub alive: bool,
    pub fire_cooldown: i64,
    pub shots_fired: usize,
    pub hits_scored: usize,
}

/// A projectile in flight. `owner` is the index of the ship that fired it.
#[derive(Clone, Copy, Debug)]
pub struct Projectile {
    pub x: i64,
    pub y: i64,
    pub vx: i64,
    pub vy: i64,
    pub lifetime: i64,
    pub owner: usize,
}

/// A match: the two ships, the projectiles in flight, the time played, and
/// how it ended if it has.
#[derive(Clone, Debug)]
pub struct GameState {
    pub ships: [Ship; 2],
    pub projectiles: Vec<Projectile>,
    pub time: i64,
    pub match_over: bool,
    pub winner: Option<usize>,
}

/// What a match is, as plain sequences.
pub struct GameView {
    pub ships: Seq<Ship>,
    pub projectiles: Seq<Projectile>,
    pub time: int,
    pub match_over: bool,
    pub winner: Option<usize>,
}

/// The residue of `v` modulo `max`: the point of the circle of
/// circumference `max` that `v` falls on.
pub open spec fn wrapped(v: int, max: int) -> int
    recommends
        max > 0,
{
    v % max
}

/// The signed way from `b` to `a` on a circle of circumference `max`: the
/// plain difference, taken the other way round where that is shorter.
pub open spec fn toroidal(a: int, b: int, max: int) -> int {
    if 2 * (a - b) > max {
        a - b - max
    } else if 2 * (a - b) < -max {
        a - b + max
    } else {
        a - b
    }
}

/// Whether `(x, y)` is a point of the arena.
pub open spec fn in_arena(x: int, y: int) -> bool {
    0 <= x < ARENA_WIDTH && 0 <= y < ARENA_HEIGHT
}

impl Ship {
    /// Position in the arena, heading within one turn, velocity and
    /// cooldown within their limits.
    pub open spec fn wf(self) -> bool {
        &&& in_arena(self.x as int, self.y as int)
        &&& -SHIP_VELOCITY_LIMIT <= self.vx <= SHIP_VELOCITY_LIMIT
        &&& -SHIP_VELOCITY_LIMIT <= self.vy <= SHIP_VELOCITY_LIMIT
        &&& 0 <= self.rotation < FULL_TURN
        &&& 0 <= self.fire_cooldown <= FIRE_COOLDOWN
    }

    /// The square of the speed.
    pub open spec fn speed_sq(self) -> int {
        self.vx * self.vx + self.vy * self.vy
    }
}

impl Projectile {
    /// Position in the arena, velocity within its limit, some lifetime
    /// left, and one of the two ships as owner.
    pub open spec fn wf(self) -> bool {
        &&& in_arena(self.x as int, self.y as int)
        &&& -PROJECTILE_VELOCITY_LIMIT <= self.vx <= PROJECTILE_VELOCITY_LIMIT
        &&& -PROJECTILE_VELOCITY_LIMIT <= self.vy <= PROJECTILE_VELOCITY_LIMIT
        &&& 0 < self.lifetime <= PROJECTILE_LIFETIME
        &&& self.owner < 2
    }
}

/// The test that picks the projectiles of ship `who`.
pub open spec fn owned_by(who: int) -> spec_fn(Projectile) -> bool {
    |p: Projectile| p.owner == who
}

/// How many of the projectiles belong to ship `who`.
pub open spec fn owned(projectiles: Seq<Projectile>, who: int) -> nat {
    projectiles.filter(owned_by(who)).len()
}

impl GameView {
    /// Two well-formed ships, well-formed projectiles of which no ship owns
    /// more than its share, and a winner only where the match is over and
    /// that ship alone is alive.
    pub open spec fn wf(self) -> bool {
        &&& self.ships.len() == 2
        &&& self.ships[0].wf()
        &&& self.ships[1].wf()
        &&& forall|i: int| 0 <= i < self.projectiles.len() ==> (#[trigger] self.projectiles[i]).wf()
        &&& owned(self.projectiles, 0) <= MAX_PROJECTILES_PER_SHIP
        &&& owned(self.projectiles, 1) <= MAX_PROJECTILES_PER_SHIP
        &&& self.time >= 0
        &&& match self.winner {
            Some(w) => w < 2 && self.match_over && self.ships[w as int].alive && !self.ships[1
                - w].alive,
            None => true,
        }
    }
}

impl View for GameState {
    type V = GameView;

    open spec fn view(&self) -> GameView {
        GameView {
            ships: self.ships@,
            projectiles: self.projectiles@,
            time: self.time as int,
            match_over: self.match_over,
            winner: self.winner,
        }
    }
}

impl GameState {
    pub open spec fn wf(self) -> bool {
        self@.wf()
    }
}

/// Wraps a coordinate onto a circle of circumference `max`.
pub fn wrap(val: i64, max: i64) -> (r: i64)
    requires
        max > 0,
    ensures
        r == wrapped(val as int, max as int),
        0 <= r < max,
{
    crate::fixed::residue(val, max)
}

/// The signed way from `b` to `a` on a circle of circumference `max`.
pub fn toroidal_diff(a: i64, b: i64, max: i64) -> (r: i64)
    requires
        max > 0,
        i64::MIN <= a - b <= i64::MAX,
    ensures
        r == toroidal(a as int, b as int, max as int),
{
    let d: i64 = a - b;
    if d > max / 2 {
        d - max
    } else if d < -(max / 2) {
        d + max
    } else {
        d
    }
}

/// A wrapped coordinate lies on the circle, and wrapping it again changes
/// nothing.
pub proof fn lemma_wrap_range_idempotent(v: int, max: int)
    requires
        max > 0,
    ensures
        0 <= wrapped(v, max) < max,
        wrapped(wrapped(v, max), max) == wrapped(v, max),
{
    vstd::arithmetic::div_mod::lemma_mod_bound(v, max);
    vstd::arithmetic::div_mod::lemma_mod_twice(v, max);
}

/// The way from `b` to `a` is the opposite of the way from `a` to `b`.
pub proof fn lemma_toroidal_antisymmetric(a: int, b: int, max: int)
    requires
        max > 0,
    ensures
        toroidal(a, b, max) == -toroidal(b, a, max),
{
}

/// The way between two points is longer than half the circle only where
/// their plain difference exceeds one circumference and a half, and it is
/// exactly minus half the circle only for a difference of exactly that.
pub proof fn lemma_toroidal_range(a: int, b: int, max: int)
    requires
        max > 0,
    ensures
        (-max < 2 * toroidal(a, b, max) <= max) <==> (-3 * max < 2 * (a - b) <= 3 * max && 2 * (a
            - b) != -max),
        (0 <= a < max && 0 <= b < max) ==> -max <= 2 * toroidal(a, b, max) <= max,
{
}

/// No squared distance across the arena exceeds this: twice the square of
/// half the arena's width.
pub const FARTHEST_SQ: i64 = 460_800_000_000_000_000;

/// The way from the point `(bx, by)` to the point `(ax, ay)` across the
/// arena, as a vector.
pub open spec fn way(ax: int, ay: int, bx: int, by: int) -> (int, int) {
    (toroidal(ax, bx, ARENA_WIDTH as int), toroidal(ay, by, ARENA_HEIGHT as int))
}

/// The square of the distance between two points of the arena.
pub open spec fn distance_sq(ax: int, ay: int, bx: int, by: int) -> int {
    way(ax, ay, bx, by).0 * way(ax, ay, bx, by).0 + way(ax, ay, bx, by).1 * way(ax, ay, bx, by).1
}

/// No way across the arena is longer than half of it in either direction,
/// and the square of its length fits comfortably.
pub proof fn lemma_way_bounds(ax: int, ay: int, bx: int, by: int)
    requires
        in_arena(ax, ay),
        in_arena(bx, by),
    ensures
        -ARENA_WIDTH <= 2 * way(ax, ay, bx, by).0 <= ARENA_WIDTH,
        -ARENA_HEIGHT <= 2 * way(ax, ay, bx, by).1 <= ARENA_HEIGHT,
        0 <= distance_sq(ax, ay, bx, by) <= FARTHEST_SQ,
{
    let dx = way(ax, ay, bx, by).0;
    let dy = way(ax, ay, bx, by).1;
    lemma_product_bound(dx, dx, 480_000_000, 480_000_000);
    lemma_product_bound(dy, dy, 480_000_000, 480_000_000);
    assert(dx * dx >= 0 && dy * dy >= 0) by (nonlinear_arith);
}

/// The way from `(bx, by)` to `(ax, ay)` and the square of its length.
pub fn way_between(ax: i64, ay: i64, bx: i64, by: i64) -> (w: (i64, i64, i64))
    requires
        in_arena(ax as int, ay as int),
        in_arena(bx as int, by as int),
    ensures
        w.0 == way(ax as int, ay as int, bx as int, by as int).0,
        w.1 == way(ax as int, ay as int, bx as int, by as int).1,
        w.2 == distance_sq(ax as int, ay as int, bx as int, by as int),
{
    proof {
        lemma_way_bounds(ax as int, ay as int, bx as int, by as int);
    }
    let dx: i64 = toroidal_diff(ax, bx, ARENA_WIDTH);
    let dy: i64 = toroidal_diff(ay, by, ARENA_HEIGHT);
    proof {
        lemma_product_bound(dx as int, dx as int, 480_000_000, 480_000_000);
        lemma_product_bound(dy as int, dy as int, 480_000_000, 480_000_000);
    }
    (dx, dy, dx * dx + dy * dy)
}

/// The match after ship `who` has taken its turn: a dead ship does
/// nothing; a living one moves, and fires if its pilot pulls the trigger
/// and the ship is ready.
pub open spec fn steered(s: GameView, who: int, c: Controls, dt: int) -> GameView {
    if !s.ships[who].alive {
        s
    } else if c.fire && ready(s.ships[who].advanced(c, dt), owned(s.projectiles, who)) {
        GameView {
            ships: s.ships.update(who, reloaded(s.ships[who].advanced(c, dt))),
            projectiles: s.projectiles.push(shot(s.ships[who].advanced(c, dt), who as usize)),
            ..s
        }
    } else {
        GameView { ships: s.ships.update(who, s.ships[who].advanced(c, dt)), ..s }
    }
}

/// The match after both ships have taken their turns, the first one first.
pub open spec fn piloted(s: GameView, dt: int, c0: Controls, c1: Controls) -> GameView {
    steered(steered(s, 0, c0, dt), 1, c1, dt)
}

/// The match after the two ships have met.
pub open spec fn met(s: GameView) -> GameView {
    GameView {
        ships: seq![bounced(s.ships[0], s.ships[1]).0, bounced(s.ships[0], s.ships[1]).1],
        ..s
    }
}

/// The match after its projectiles have flown for `dt`.
pub open spec fn volleyed(s: GameView, dt: int) -> GameView {
    GameView { projectiles: in_flight(s.projectiles, dt), ..s }
}

/// Whether the match ends now: a ship is dead, or time is up.
pub open spec fn finished(s: GameView) -> bool {
    !s.ships[0].alive || !s.ships[1].alive || s.time >= MATCH_DURATION
}

/// The ship that alone is alive, if there is one.
pub open spec fn sole_survivor(s: GameView) -> Option<usize> {
    if s.ships[0].alive && !s.ships[1].alive {
        Some(0usize)
    } else if s.ships[1].alive && !s.ships[0].alive {
        Some(1usize)
    } else {
        None
    }
}

/// The match with its end declared, if it ends now: the sole survivor
/// wins, and where both ships live or both are dead nobody does.
pub open spec fn settled(s: GameView) -> GameView {
    if finished(s) {
        GameView { match_over: true, winner: sole_survivor(s), ..s }
    } else {
        s
    }
}

/// The time after a span of `dt` more: the sum, but for the largest number
/// that the clock can hold, at which it stops.
pub open spec fn later(time: int, dt: int) -> int {
    if time + dt <= i64::MAX {
        time + dt
    } else {
        i64::MAX as int
    }
}

/// The match after a step of `dt` under the controls `c0` and `c1`. A match
/// that is over only grows older. In a running one the ships take their
/// turns and meet, the projectiles fly and strike, and the end is declared
/// if it has come.
#[verifier::opaque]
pub open spec fn stepped(s: GameView, dt: int, c0: Controls, c1: Controls) -> GameView {
    if s.match_over {
        GameView { time: later(s.time, dt), ..s }
    } else {
        settled(
            after_strikes(
                volleyed(met(piloted(GameView { time: later(s.time, dt), ..s }, dt, c0, c1)), dt),
            ),
        )
    }
}

/// A ship's turn keeps a running match well-formed, leaves the other ship
/// alone, and leaves the ship, if it lives, no faster than the cap.
pub proof fn lemma_steered(s: GameView, who: int, c: Controls, dt: int)
    requires
        s.wf(),
        s.winner is None,
        0 <= who < 2,
        c.wf(),
        0 <= dt <= MAX_STEP,
    ensures
        steered(s, who, c, dt).wf(),
        steered(s, who, c, dt).winner is None,
        steered(s, who, c, dt).time == s.time,
        steered(s, who, c, dt).match_over == s.match_over,
        steered(s, who, c, dt).ships[1 - who] == s.ships[1 - who],
        steered(s, who, c, dt).ships[who].alive == s.ships[who].alive,
        s.ships[who].alive ==> steered(s, who, c, dt).ships[who].speed_sq() <= MAX_SHIP_SPEED
            * MAX_SHIP_SPEED,
        s.ships[who].alive ==> within_cap(steered(s, who, c, dt).ships[who]),
{
    if s.ships[who].alive {
        let moved = s.ships[who].advanced(c, dt);
        lemma_advanced(s.ships[who], c, dt);
        lemma_component_bound(moved.vx as int, moved.vy as int, MAX_SHIP_SPEED as int);
        lemma_shot(moved, who as usize);
        lemma_owned_push(s.projectiles, shot(moved, who as usize), 0);
        lemma_owned_push(s.projectiles, shot(moved, who as usize), 1);
    }
}

/// The meeting of the ships keeps a running match well-formed.
pub proof fn lemma_met(s: GameView)
    requires
        s.wf(),
        s.winner is None,
        s.ships[0].alive && s.ships[1].alive ==> within_cap(s.ships[0]) && within_cap(s.ships[1]),
    ensures
        met(s).wf(),
        met(s).ships[0].alive == s.ships[0].alive,
        met(s).ships[1].alive == s.ships[1].alive,
{
    if touching(s.ships[0], s.ships[1]) {
        lemma_contact(s.ships[0], s.ships[1]);
    }
}

/// A step keeps a well-formed match well-formed. So at no time has a ship
/// more than `MAX_PROJECTILES_PER_SHIP` projectiles in flight.
pub proof fn lemma_stepped_wf(s: GameView, dt: int, c0: Controls, c1: Controls)
    requires
        s.wf(),
        c0.wf(),
        c1.wf(),
        0 <= dt <= MAX_STEP,
    ensures
        stepped(s, dt, c0, c1).wf(),
        owned(stepped(s, dt, c0, c1).projectiles, 0) <= MAX_PROJECTILES_PER_SHIP,
        owned(stepped(s, dt, c0, c1).projectiles, 1) <= MAX_PROJECTILES_PER_SHIP,
{
    reveal(stepped);
    if !s.match_over {
        let s0 = GameView { time: later(s.time, dt), ..s };
        lemma_steered(s0, 0, c0, dt);
        let s1 = steered(s0, 0, c0, dt);
        lemma_steered(s1, 1, c1, dt);
        let s2 = steered(s1, 1, c1, dt);
        lemma_met(s2);
        let s3 = met(s2);
        lemma_in_flight(s3.projectiles, dt, 0);
        lemma_in_flight(s3.projectiles, dt, 1);
        let s4 = volleyed(s3, dt);
        lemma_after_strikes(s4);
    }
}

impl Ship {
    /// A ship at rest at `(x, y)`, wrapped into the arena, with the heading
    /// `rotation`, reduced to one turn.
    pub open spec fn fresh(x: int, y: int, rotation: int) -> Ship {
        Ship {
            x: wrapped(x, ARENA_WIDTH as int) as i64,
            y: wrapped(y, ARENA_HEIGHT as int) as i64,
            vx: 0,
            vy: 0,
            rotation: (rotation % (FULL_TURN as int)) as i64,
            alive: true,
            fire_cooldown: 0,
            shots_fired: 0,
            hits_scored: 0,
        }
    }

    /// Makes a ship at rest.
    pub fn new(x: i64, y: i64, rotation: i64) -> (ship: Ship)
        ensures
            ship == Ship::fresh(x as int, y as int, rotation as int),
            ship.wf(),
    {
        Ship {
            x: wrap(x, ARENA_WIDTH),
            y: wrap(y, ARENA_HEIGHT),
            vx: 0,
            vy: 0,
            rotation: crate::fixed::residue(rotation, FULL_TURN),
            alive: true,
            fire_cooldown: 0,
            shots_fired: 0,
            hits_scored: 0,
        }
    }
}

/// Where the first ship starts, from the left.
pub const START_LEFT: i64 = 200 * ONE;

/// Where the second ship starts, from the left.
pub const START_RIGHT: i64 = 600 * ONE;

/// The lowest height at which a ship may start.
pub const START_LOW: i64 = 150 * ONE;

/// The height below which every ship starts.
pub const START_HIGH: i64 = 450 * ONE;

/// How far the heading of a ship may be off its opponent at the start.
pub const START_SPREAD: i64 = 600_000;

impl GameView {
    /// A match that is about to begin: the first ship on the left at
    /// height `y0`, the second on the right at height `y1`, with the given
    /// headings, and nothing else.
    pub open spec fn opening(y0: int, heading0: int, y1: int, heading1: int) -> GameView {
        GameView {
            ships: seq![
                Ship::fresh(START_LEFT as int, y0, heading0),
                Ship::fresh(START_RIGHT as int, y1, heading1),
            ],
            projectiles: Seq::empty(),
            time: 0,
            match_over: false,
            winner: None,
        }
    }
}

/// Whether a match is about to begin from a start as `new_random` makes
/// it: each ship at a height within the middle half of the arena, its
/// heading off the other side by less than half a radian.
pub open spec fn random_opening(s: GameView) -> bool {
    exists|y0: int, off0: int, y1: int, off1: int|
        {
            &&& START_LOW <= y0 < START_HIGH
            &&& START_LOW <= y1 < START_HIGH
            &&& -START_SPREAD <= off0 < START_SPREAD
            &&& -START_SPREAD <= off1 < START_SPREAD
            &&& s == #[trigger] GameView::opening(y0, off0, y1, HALF_TURN + off1)
        }
}

impl GameState {
    /// Sets up a match with the ships at the given heights and headings.
    pub fn start(y0: i64, heading0: i64, y1: i64, heading1: i64) -> (state: GameState)
        ensures
            state@ == GameView::opening(y0 as int, heading0 as int, y1 as int, heading1 as int),
            state.wf(),
    {
        let state = GameState {
            ships: [Ship::new(START_LEFT, y0, heading0), Ship::new(START_RIGHT, y1, heading1)],
            projectiles: Vec::new(),
            time: 0,
            match_over: false,
            winner: None,
        };
        proof {
            assert(state@.ships =~= GameView::opening(
                y0 as int,
                heading0 as int,
                y1 as int,
                heading1 as int,
            ).ships);
            assert(state@.projectiles.filter(owned_by(0)).len() == 0) by {
                reveal(Seq::filter);
            }
            assert(state@.projectiles.filter(owned_by(1)).len() == 0) by {
                reveal(Seq::filter);
            }
        }
        state
    }

    /// Sets up the standard match: both ships at mid-height, facing each
    /// other.
    pub fn new() -> (state: GameState)
        ensures
            state@ == GameView::opening(300 * ONE, 0, 300 * ONE, HALF_TURN as int),
            state.wf(),
    {
        GameState::start(300 * ONE, 0, 300 * ONE, HALF_TURN)
    }

    /// Sets up a match with the ships at random heights, each facing the
    /// other side give or take half a radian.
    pub fn new_random(rng: &mut StdRng) -> (state: GameState)
        ensures
            state.wf(),
            random_opening(state@),
    {
        let y0: i64 = between(rng, START_LOW, START_HIGH - 1);
        let y1: i64 = between(rng, START_LOW, START_HIGH - 1);
        let off0: i64 = between(rng, -START_SPREAD, START_SPREAD - 1);
        let off1: i64 = between(rng, -START_SPREAD, START_SPREAD - 1);
        GameState::start(y0, off0, y1, HALF_TURN + off1)
    }

    /// Lets ship `who` take its turn.
    pub fn steer(&mut self, who: usize, c: Controls, dt: i64)
        requires
            old(self).wf(),
            old(self).winner is None,
            who < 2,
            c.wf(),
            0 <= dt <= MAX_STEP,
        ensures
            final(self)@ == steered(old(self)@, who as int, c, dt as int),
            final(self).wf(),
    {
        proof {
            lemma_steered(self@, who as int, c, dt as int);
        }
        if !self.ships[who].alive {
            return;
        }
        let moved: Ship = self.ships[who].advance(c, dt);
        self.ships[who] = moved;
        if c.fire && moved.fire_cooldown <= 0 {
            let own: usize = count_owned(&self.projectiles, who);
            if own < MAX_PROJECTILES_PER_SHIP {
                proof {
                    lemma_component_bound(moved.vx as int, moved.vy as int, MAX_SHIP_SPEED as int);
                }
                self.projectiles.push(fire(&moved, who));
                self.ships[who].fire_cooldown = FIRE_COOLDOWN;
                self.ships[who].shots_fired = count(self.ships[who].shots_fired);
            }
        }
        proof {
            assert(self@.ships =~= steered(old(self)@, who as int, c, dt as int).ships);
        }
    }

    /// Declares the end of the match if it has come.
    pub fn settle(&mut self)
        ensures
            final(self)@ == settled(old(self)@),
    {
        if !self.ships[0].alive || !self.ships[1].alive || self.time >= MATCH_DURATION {
            self.match_over = true;
            self.winner = if self.ships[0].alive && !self.ships[1].alive {
                Some(0)
            } else if self.ships[1].alive && !self.ships[0].alive {
                Some(1)
            } else {
                None
            };
        }
    }

    /// Advances the match by `dt`. Each of the two rows of `actions` holds
    /// the signals of one pilot: thrust, turn left, turn right, fire.
    pub fn update(&mut self, dt: i64, actions: &[[i64; 4]; 2])
        requires
            old(self).wf(),
            0 <= dt <= MAX_STEP,
        ensures
            final(self)@ == stepped(
                old(self)@,
                dt as int,
                Controls::of(actions@[0]@),
                Controls::of(actions@[1]@),
            ),
            final(self).wf(),
    {
        let c0: Controls = Controls::read(&actions[0]);
        let c1: Controls = Controls::read(&actions[1]);
        proof {
            reveal(stepped);
            lemma_stepped_wf(self@, dt as int, c0, c1);
        }
        self.time = if self.time <= i64::MAX - dt {
            self.time + dt
        } else {
            i64::MAX
        };
        if self.match_over {
            return;
        }
        let ghost s0 = self@;
        proof {
            lemma_steered(s0, 0, c0, dt as int);
            lemma_steered(steered(s0, 0, c0, dt as int), 1, c1, dt as int);
        }
        self.steer(0, c0, dt);
        self.steer(1, c1, dt);
        let ghost s2 = self@;
        proof {
            lemma_met(s2);
        }
        let (a, b) = bounce(&self.ships[0], &self.ships[1]);
        self.ships[0] = a;
        self.ships[1] = b;
        proof {
            assert(self@.ships =~= met(s2).ships);
        }
        fly(&mut self.projectiles, dt);
        proof {
            lemma_in_flight(met(s2).projectiles, dt as int, 0);
            lemma_in_flight(met(s2).projectiles, dt as int, 1);
        }
        self.resolve_strikes();
        self.settle();
    }
}

/// A match that is over stays over: a step changes nothing in it but the
/// time.
pub proof fn lemma_over_is_final(s: GameView, dt: int, c0: Controls, c1: Controls)
    requires
        s.match_over,
    ensures
        stepped(s, dt, c0, c1) == (GameView { time: later(s.time, dt), ..s }),
        stepped(s, dt, c0, c1).match_over,
{
    reveal(stepped);
}

/// A running match is over after a step exactly if by then a ship is dead
/// or time is up, and then the ship that alone is alive has won, if there
/// is one.
pub proof fn lemma_end_of_match(s: GameView, dt: int, c0: Controls, c1: Controls)
    requires
        !s.match_over,
    ensures
        stepped(s, dt, c0, c1).match_over <==> {
            ||| !stepped(s, dt, c0, c1).ships[0].alive
            ||| !stepped(s, dt, c0, c1).ships[1].alive
            ||| later(s.time, dt) >= MATCH_DURATION
        },
        stepped(s, dt, c0, c1).match_over ==> stepped(s, dt, c0, c1).winner == sole_survivor(
            stepped(s, dt, c0, c1),
        ),
{
    reveal(stepped);
}

/// After a step of a running match in which the ships do not collide, no
/// living ship is faster than the cap. (Ships that close in on each other
/// and touch swap speed, which may carry one of them beyond the cap until
/// its next step.)
pub proof fn lemma_speed_cap(s: GameView, dt: int, c0: Controls, c1: Controls, who: int)
    requires
        s.wf(),
        !s.match_over,
        c0.wf(),
        c1.wf(),
        0 <= dt <= MAX_STEP,
        0 <= who < 2,
        !(touching(
            piloted(GameView { time: later(s.time, dt), ..s }, dt, c0, c1).ships[0],
            piloted(GameView { time: later(s.time, dt), ..s }, dt, c0, c1).ships[1],
        ) && crate::contact::contact(
            piloted(GameView { time: later(s.time, dt), ..s }, dt, c0, c1).ships[0],
            piloted(GameView { time: later(s.time, dt), ..s }, dt, c0, c1).ships[1],
        ).parting < 0),
    ensures
        stepped(s, dt, c0, c1).ships[who].alive ==> stepped(s, dt, c0, c1).ships[who].speed_sq()
            <= MAX_SHIP_SPEED * MAX_SHIP_SPEED,
{
    reveal(stepped);
    let s0 = GameView { time: later(s.time, dt), ..s };
    lemma_steered(s0, 0, c0, dt);
    let s1 = steered(s0, 0, c0, dt);
    lemma_steered(s1, 1, c1, dt);
    let s2 = steered(s1, 1, c1, dt);
    lemma_met(s2);
    if touching(s2.ships[0], s2.ships[1]) {
        let c = crate::contact::contact(s2.ships[0], s2.ships[1]);
        assert(crate::fixed::times(0, c.nx) == 0);
        assert(crate::fixed::times(0, c.ny) == 0);
    }
}

/// What a step of a running match does to the counters and to the lives of
/// the ships: no dead ship comes back, a ship fires at most once, and a
/// ship scores exactly when its opponent dies.
pub proof fn lemma_stepped_counters(s: GameView, dt: int, c0: Controls, c1: Controls, who: int)
    requires
        s.wf(),
        !s.match_over,
        c0.wf(),
        c1.wf(),
        0 <= dt <= MAX_STEP,
        0 <= who < 2,
        s.ships[who].shots_fired < usize::MAX,
        s.ships[who].hits_scored < usize::MAX,
        s.time + dt <= i64::MAX,
    ensures
        stepped(s, dt, c0, c1).time == s.time + dt,
        stepped(s, dt, c0, c1).ships[who].alive ==> s.ships[who].alive,
        s.ships[who].shots_fired <= stepped(s, dt, c0, c1).ships[who].shots_fired
            <= s.ships[who].shots_fired + 1,
        stepped(s, dt, c0, c1).ships[who].hits_scored == s.ships[who].hits_scored + if s.ships[1
            - who].alive && !stepped(s, dt, c0, c1).ships[1 - who].alive {
            1int
        } else {
            0int
        },
{
    reveal(stepped);
    let s0 = GameView { time: later(s.time, dt), ..s };
    lemma_steered(s0, 0, c0, dt);
    let s1 = steered(s0, 0, c0, dt);
    lemma_steered(s1, 1, c1, dt);
    let s2 = steered(s1, 1, c1, dt);
    lemma_met(s2);
    let s3 = met(s2);
    lemma_in_flight(s3.projectiles, dt, 0);
    lemma_in_flight(s3.projectiles, dt, 1);
    let s4 = volleyed(s3, dt);
    lemma_after_strikes(s4);
    if touching(s2.ships[0], s2.ships[1]) {
        lemma_contact(s2.ships[0], s2.ships[1]);
    }
}

impl Ship {
    /// Tells whether the ship is well-formed.
    pub fn is_valid(&self) -> (b: bool)
        ensures
            b == self.wf(),
    {
        0 <= self.x && self.x < ARENA_WIDTH && 0 <= self.y && self.y < ARENA_HEIGHT
            && -SHIP_VELOCITY_LIMIT <= self.vx && self.vx <= SHIP_VELOCITY_LIMIT
            && -SHIP_VELOCITY_LIMIT <= self.vy && self.vy <= SHIP_VELOCITY_LIMIT && 0
            <= self.rotation && self.rotation < FULL_TURN && 0 <= self.fire_cooldown
            && self.fire_cooldown <= FIRE_COOLDOWN
    }
}

impl Projectile {
    /// Tells whether the projectile is well-formed.
    pub fn is_valid(&self) -> (b: bool)
        ensures
            b == self.wf(),
    {
        0 <= self.x && self.x < ARENA_WIDTH && 0 <= self.y && self.y < ARENA_HEIGHT
            && -PROJECTILE_VELOCITY_LIMIT <= self.vx && self.vx <= PROJECTILE_VELOCITY_LIMIT
            && -PROJECTILE_VELOCITY_LIMIT <= self.vy && self.vy <= PROJECTILE_VELOCITY_LIMIT && 0
            < self.lifetime && self.lifetime <= PROJECTILE_LIFETIME && self.owner < 2
    }
}

impl GameState {
    /// Tells whether the match is well-formed, which is what `update` asks
    /// for and keeps.
    pub fn is_valid(&self) -> (b: bool)
        ensures
            b == self.wf(),
    {
        if !self.ships[0].is_valid() || !self.ships[1].is_valid() || self.time < 0 {
            return false;
        }
        let mut i: usize = 0;
        while i < self.projectiles.len()
            invariant
                i <= self.projectiles@.len(),
                forall|j: int| 0 <= j < i ==> (#[trigger] self.projectiles@[j]).wf(),
            decreases self.projectiles@.len() - i,
        {
            if !self.projectiles[i].is_valid() {
                return false;
            }
            i = i + 1;
        }
        if count_owned(&self.projectiles, 0) > MAX_PROJECTILES_PER_SHIP || count_owned(
            &self.projectiles,
            1,
        ) > MAX_PROJECTILES_PER_SHIP {
            return false;
        }
        match self.winner {
            Some(w) => w < 2 && self.match_over && self.ships[w].alive && !self.ships[1 - w].alive,
            None => true,
        }
    }
}

/// The tuning constants that are not whole numbers of units are the
/// fractions that they are meant to be, and the limits are wide enough.
pub proof fn lemma_game_constants()
    ensures
        100 * SHIP_DRAG == 98 * ONE,
        4 * FIRE_COOLDOWN == ONE,
        10 * INHERITED_SHARE == 3 * ONE,
        2 * START_SPREAD == ONE,
        FARTHEST_SQ == 2 * ((ARENA_WIDTH / 2) * (ARENA_WIDTH / 2)),
        ARENA_HEIGHT <= ARENA_WIDTH,
        SHIP_VELOCITY_LIMIT + 5 * SHIP_THRUST == crate::fixed::LIMIT,
        MAX_STEP == 5 * ONE,
{
    assert((ARENA_WIDTH / 2) * (ARENA_WIDTH / 2) == 230_400_000_000_000_000) by (nonlinear_arith)
        requires
            ARENA_WIDTH == 960_000_000,
    ;
}

/// A ship that has no projectile in flight has none that could strike.
pub proof fn lemma_none_owned(projectiles: Seq<Projectile>, who: int, j: int)
    requires
        owned(projectiles, who) == 0,
        0 <= j < projectiles.len(),
    ensures
        projectiles[j].owner != who,
{
    if projectiles[j].owner == who {
        projectiles.lemma_filter_contains(owned_by(who), j);
    }
}

/// A ship whose pilot does not pull the trigger is no danger: if it has
/// no projectile in flight before a step of a running match, it has none
/// after it, it has fired no shot, and its opponent is as alive as before.
pub proof fn lemma_stepped_unarmed(s: GameView, dt: int, c0: Controls, c1: Controls, who: int)
    requires
        s.wf(),
        !s.match_over,
        c0.wf(),
        c1.wf(),
        0 <= dt <= MAX_STEP,
        0 <= who < 2,
        who == 0 ==> !c0.fire,
        who == 1 ==> !c1.fire,
        owned(s.projectiles, who) == 0,
    ensures
        owned(stepped(s, dt, c0, c1).projectiles, who) == 0,
        stepped(s, dt, c0, c1).ships[1 - who].alive == s.ships[1 - who].alive,
        stepped(s, dt, c0, c1).ships[who].shots_fired == s.ships[who].shots_fired,
{
    reveal(stepped);
    let s0 = GameView { time: later(s.time, dt), ..s };
    lemma_steered(s0, 0, c0, dt);
    let s1 = steered(s0, 0, c0, dt);
    if s1.projectiles != s0.projectiles {
        lemma_owned_push(s0.projectiles, shot(s0.ships[0].advanced(c0, dt), 0), who);
    }
    lemma_steered(s1, 1, c1, dt);
    let s2 = steered(s1, 1, c1, dt);
    if s2.projectiles != s1.projectiles {
        lemma_owned_push(s1.projectiles, shot(s1.ships[1].advanced(c1, dt), 1), who);
    }
    lemma_met(s2);
    let s3 = met(s2);
    if touching(s2.ships[0], s2.ships[1]) {
        lemma_contact(s2.ships[0], s2.ships[1]);
    }
    lemma_in_flight(s3.projectiles, dt, 0);
    lemma_in_flight(s3.projectiles, dt, 1);
    let s4 = volleyed(s3, dt);
    lemma_after_strikes(s4);
    let n = s4.projectiles.len() as int;
    let k = crate::strike::killer(s4, 1 - who);
    if k < n {
        crate::strike::lemma_first_strike(s4.projectiles, who, s4.ships[1 - who], 0);
        lemma_none_owned(s4.projectiles, who, k);
    }
    let hi = crate::strike::upper(crate::strike::killer(s4, 0), crate::strike::killer(s4, 1));
    let lo = crate::strike::lower(crate::strike::killer(s4, 0), crate::strike::killer(s4, 1));
    crate::strike::lemma_without(s4.projectiles, hi, who);
    crate::strike::lemma_without(crate::strike::without(s4.projectiles, hi), lo, who);
}

} // verus!
