//! What happens where the two ships touch: they are pushed apart along the
//! line between them, and if they were closing in they swap the parts of
//! their velocities along that line.

use vstd::prelude::*;
use crate::fixed::{ONE, fx_mul, length, lemma_quot_bound, lemma_times_shrinks, quot, times};
use crate::vector::{direction, lemma_direction, lemma_length_bounds, unit};
use crate::game::{
    ARENA_HEIGHT, ARENA_WIDTH, MAX_SHIP_SPEED, SHIP_RADIUS, Ship, distance_sq, lemma_way_bounds,
    way, way_between, wrap, wrapped,
};

verus! {

/// Twice the radius of a ship.
pub const CONTACT_DISTANCE: i64 = 24 * ONE;

/// The square of `CONTACT_DISTANCE`.
pub const CONTACT_DISTANCE_SQ: i64 = 829_440_000_000_000;

/// Ships whose squared distance is no more than this, a thousandth of a
/// square unit, count as being in the same place and are left alone.
pub const COINCIDENCE_SQ: i64 = 1_440_000_000;

/// What a contact needs to know of the two ships: the unit vector from the
/// second to the first, the depth by which they overlap, and the speed at
/// which the first moves away from the second along that vector.
pub struct Contact {
    pub nx: int,
    pub ny: int,
    pub overlap: int,
    pub parting: int,
}

/// Whether two living ships are close enough to touch and not in one place.
pub open spec fn touching(a: Ship, b: Ship) -> bool {
    &&& a.alive
    &&& b.alive
    &&& COINCIDENCE_SQ < distance_sq(a.x as int, a.y as int, b.x as int, b.y as int)
        < CONTACT_DISTANCE_SQ
}

/// The length of the way from `b` to `a`.
pub open spec fn gap(a: Ship, b: Ship) -> int {
    length(
        way(a.x as int, a.y as int, b.x as int, b.y as int).0,
        way(a.x as int, a.y as int, b.x as int, b.y as int).1,
    )
}

/// The contact between two ships that touch.
pub open spec fn contact(a: Ship, b: Ship) -> Contact {
    let nx = direction(
        way(a.x as int, a.y as int, b.x as int, b.y as int).0,
        way(a.x as int, a.y as int, b.x as int, b.y as int).1,
    ).0;
    let ny = direction(
        way(a.x as int, a.y as int, b.x as int, b.y as int).0,
        way(a.x as int, a.y as int, b.x as int, b.y as int).1,
    ).1;
    Contact {
        nx,
        ny,
        overlap: CONTACT_DISTANCE - gap(a, b),
        parting: times(a.vx - b.vx, nx) + times(a.vy - b.vy, ny),
    }
}

/// The part of the parting speed that the bounce reverses: all of it where
/// the ships are closing in, none where they are parting already.
pub open spec fn kick(c: Contact) -> int {
    if c.parting < 0 {
        c.parting
    } else {
        0
    }
}

/// The first of two ships after their contact: pushed back by half the
/// overlap, and rid of its closing speed.
pub open spec fn pushed(s: Ship, c: Contact) -> Ship {
    Ship {
        x: wrapped(s.x + quot(times(c.nx, c.overlap), 2), ARENA_WIDTH as int) as i64,
        y: wrapped(s.y + quot(times(c.ny, c.overlap), 2), ARENA_HEIGHT as int) as i64,
        vx: (s.vx - times(kick(c), c.nx)) as i64,
        vy: (s.vy - times(kick(c), c.ny)) as i64,
        ..s
    }
}

/// The second of two ships after their contact: the mirror image of what
/// happens to the first.
pub open spec fn pulled(s: Ship, c: Contact) -> Ship {
    Ship {
        x: wrapped(s.x - quot(times(c.nx, c.overlap), 2), ARENA_WIDTH as int) as i64,
        y: wrapped(s.y - quot(times(c.ny, c.overlap), 2), ARENA_HEIGHT as int) as i64,
        vx: (s.vx + times(kick(c), c.nx)) as i64,
        vy: (s.vy + times(kick(c), c.ny)) as i64,
        ..s
    }
}

/// The two ships after they have met, or as they were if they do not touch.
pub open spec fn bounced(a: Ship, b: Ship) -> (Ship, Ship) {
    if touching(a, b) {
        (pushed(a, contact(a, b)), pulled(b, contact(a, b)))
    } else {
        (a, b)
    }
}

/// Whether no component of the ship's velocity exceeds the speed cap.
pub open spec fn within_cap(s: Ship) -> bool {
    &&& -MAX_SHIP_SPEED <= s.vx <= MAX_SHIP_SPEED
    &&& -MAX_SHIP_SPEED <= s.vy <= MAX_SHIP_SPEED
}

/// The bounds of a contact between two well-formed ships within the cap.
pub proof fn lemma_contact(a: Ship, b: Ship)
    requires
        a.wf(),
        b.wf(),
        within_cap(a),
        within_cap(b),
        touching(a, b),
    ensures
        0 < gap(a, b) <= CONTACT_DISTANCE,
        -ONE <= contact(a, b).nx <= ONE,
        -ONE <= contact(a, b).ny <= ONE,
        0 <= contact(a, b).overlap <= CONTACT_DISTANCE,
        -2 * MAX_SHIP_SPEED <= times(a.vx - b.vx, contact(a, b).nx) <= 2 * MAX_SHIP_SPEED,
        -2 * MAX_SHIP_SPEED <= times(a.vy - b.vy, contact(a, b).ny) <= 2 * MAX_SHIP_SPEED,
        -4 * MAX_SHIP_SPEED <= kick(contact(a, b)) <= 0,
        -CONTACT_DISTANCE <= times(contact(a, b).nx, contact(a, b).overlap) <= CONTACT_DISTANCE,
        -CONTACT_DISTANCE <= times(contact(a, b).ny, contact(a, b).overlap) <= CONTACT_DISTANCE,
        -4 * MAX_SHIP_SPEED <= times(kick(contact(a, b)), contact(a, b).nx) <= 4 * MAX_SHIP_SPEED,
        -4 * MAX_SHIP_SPEED <= times(kick(contact(a, b)), contact(a, b).ny) <= 4 * MAX_SHIP_SPEED,
        pushed(a, contact(a, b)).wf(),
        pulled(b, contact(a, b)).wf(),
{
    let dx = way(a.x as int, a.y as int, b.x as int, b.y as int).0;
    let dy = way(a.x as int, a.y as int, b.x as int, b.y as int).1;
    let c = contact(a, b);
    lemma_way_bounds(a.x as int, a.y as int, b.x as int, b.y as int);
    assert(CONTACT_DISTANCE_SQ == CONTACT_DISTANCE * CONTACT_DISTANCE) by (nonlinear_arith);
    lemma_length_bounds(dx, dy, CONTACT_DISTANCE as int);
    lemma_direction(dx, dy);
    lemma_times_shrinks(a.vx - b.vx, c.nx, 2 * MAX_SHIP_SPEED);
    lemma_times_shrinks(a.vy - b.vy, c.ny, 2 * MAX_SHIP_SPEED);
    lemma_times_shrinks(c.overlap, c.nx, CONTACT_DISTANCE as int);
    lemma_times_shrinks(c.overlap, c.ny, CONTACT_DISTANCE as int);
    assert(times(c.nx, c.overlap) == times(c.overlap, c.nx)) by (nonlinear_arith);
    assert(times(c.ny, c.overlap) == times(c.overlap, c.ny)) by (nonlinear_arith);
    lemma_quot_bound(times(c.nx, c.overlap), 2, CONTACT_DISTANCE as int);
    lemma_quot_bound(times(c.ny, c.overlap), 2, CONTACT_DISTANCE as int);
    lemma_times_shrinks(kick(c), c.nx, 4 * MAX_SHIP_SPEED);
    lemma_times_shrinks(kick(c), c.ny, 4 * MAX_SHIP_SPEED);
    vstd::arithmetic::div_mod::lemma_mod_bound(
        a.x + quot(times(c.nx, c.overlap), 2),
        ARENA_WIDTH as int,
    );
    vstd::arithmetic::div_mod::lemma_mod_bound(
        a.y + quot(times(c.ny, c.overlap), 2),
        ARENA_HEIGHT as int,
    );
    vstd::arithmetic::div_mod::lemma_mod_bound(
        b.x - quot(times(c.nx, c.overlap), 2),
        ARENA_WIDTH as int,
    );
    vstd::arithmetic::div_mod::lemma_mod_bound(
        b.y - quot(times(c.ny, c.overlap), 2),
        ARENA_HEIGHT as int,
    );
}

/// Lets two ships meet.
pub fn bounce(a: &Ship, b: &Ship) -> (after: (Ship, Ship))
    requires
        a.wf(),
        b.wf(),
        a.alive && b.alive ==> within_cap(*a) && within_cap(*b),
    ensures
        after == bounced(*a, *b),
        after.0.wf(),
        after.1.wf(),
{
    if !a.alive || !b.alive {
        return (*a, *b);
    }
    let (dx, dy, dist_sq) = way_between(a.x, a.y, b.x, b.y);
    if !(dist_sq < CONTACT_DISTANCE_SQ && dist_sq > COINCIDENCE_SQ) {
        return (*a, *b);
    }
    proof {
        lemma_contact(*a, *b);
        lemma_way_bounds(a.x as int, a.y as int, b.x as int, b.y as int);
    }
    let (nx, ny, dist) = unit(dx, dy);
    let overlap: i64 = CONTACT_DISTANCE - dist;
    let px: i64 = fx_mul(nx, overlap) / 2;
    let py: i64 = fx_mul(ny, overlap) / 2;
    let parting: i64 = fx_mul(a.vx - b.vx, nx) + fx_mul(a.vy - b.vy, ny);
    let kick: i64 = if parting < 0 {
        parting
    } else {
        0
    };
    let kx: i64 = fx_mul(kick, nx);
    let ky: i64 = fx_mul(kick, ny);
    (
        Ship {
            x: wrap(a.x + px, ARENA_WIDTH),
            y: wrap(a.y + py, ARENA_HEIGHT),
            vx: a.vx - kx,
            vy: a.vy - ky,
            ..*a
        },
        Ship {
            x: wrap(b.x - px, ARENA_WIDTH),
            y: wrap(b.y - py, ARENA_HEIGHT),
            vx: b.vx + kx,
            vy: b.vy + ky,
            ..*b
        },
    )
}

/// Two ships touch where their centres are closer than twice the radius
/// of a ship.
pub proof fn lemma_contact_distance()
    ensures
        CONTACT_DISTANCE == 2 * SHIP_RADIUS,
        CONTACT_DISTANCE_SQ == CONTACT_DISTANCE * CONTACT_DISTANCE,
        1000 * COINCIDENCE_SQ == ONE * ONE,
{
    assert(CONTACT_DISTANCE * CONTACT_DISTANCE == 829_440_000_000_000) by (nonlinear_arith)
        requires
            CONTACT_DISTANCE == 28_800_000,
    ;
    assert(ONE * ONE == 1_440_000_000_000) by (nonlinear_arith)
        requires
            ONE == 1_200_000,
    ;
}

} // verus!
