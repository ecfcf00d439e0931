//! Projectiles: how a ship fires one, and how those in flight move and expire.

use vstd::prelude::*;
use crate::contact::within_cap;
use crate::fixed::{fx_mul, lemma_times_shrinks, lemma_times_stretches, times};
use crate::game::{
    ARENA_HEIGHT, ARENA_WIDTH, FIRE_COOLDOWN, INHERITED_SHARE, MAX_PROJECTILES_PER_SHIP,
    MAX_SHIP_SPEED, MAX_STEP, PROJECTILE_LIFETIME, PROJECTILE_SPEED, PROJECTILE_VELOCITY_LIMIT,
    Projectile, SHIP_RADIUS, Ship, owned, owned_by, wrap, wrapped,
};
use crate::trig::{cosine, lemma_sine_cosine_bounds, sin_cos, sine};

verus! {

/// The projectile that ship number `owner` fires: it starts at the ship's
/// nose and flies along the heading, with a share of the ship's own
/// velocity on top.
pub open spec fn shot(s: Ship, owner: usize) -> Projectile {
    Projectile {
        x: wrapped(s.x + times(cosine(s.rotation as int), SHIP_RADIUS as int), ARENA_WIDTH as int) as i64,
        y: wrapped(s.y + times(sine(s.rotation as int), SHIP_RADIUS as int), ARENA_HEIGHT as int) as i64,
        vx: (times(cosine(s.rotation as int), PROJECTILE_SPEED as int) + times(
            s.vx as int,
            INHERITED_SHARE as int,
        )) as i64,
        vy: (times(sine(s.rotation as int), PROJECTILE_SPEED as int) + times(
            s.vy as int,
            INHERITED_SHARE as int,
        )) as i64,
        lifetime: PROJECTILE_LIFETIME,
        owner,
    }
}

/// The ship after it has fired: its cooldown starts anew and the shot is
/// counted.
pub open spec fn reloaded(s: Ship) -> Ship {
    Ship { fire_cooldown: FIRE_COOLDOWN, shots_fired: counted(s.shots_fired), ..s }
}

/// A counter after one more is counted: one higher, but for the largest
/// number that it can hold, at which it stops.
pub open spec fn counted(n: usize) -> usize {
    if n < usize::MAX {
        (n + 1) as usize
    } else {
        n
    }
}

/// Counts one more.
pub fn count(n: usize) -> (r: usize)
    ensures
        r == counted(n),
{
    if n < usize::MAX {
        n + 1
    } else {
        n
    }
}

/// Whether a ship may fire: its cooldown has run out and it has fewer
/// projectiles in flight than it may have.
pub open spec fn ready(s: Ship, own: nat) -> bool {
    s.fire_cooldown <= 0 && own < MAX_PROJECTILES_PER_SHIP
}

/// A projectile after a step of `dt`.
pub open spec fn flown(p: Projectile, dt: int) -> Projectile {
    Projectile {
        x: wrapped(p.x + times(p.vx as int, dt), ARENA_WIDTH as int) as i64,
        y: wrapped(p.y + times(p.vy as int, dt), ARENA_HEIGHT as int) as i64,
        lifetime: (p.lifetime - dt) as i64,
        ..p
    }
}

/// The step of `dt` as a function on projectiles.
pub open spec fn flight(dt: int) -> spec_fn(Projectile) -> Projectile {
    |p: Projectile| flown(p, dt)
}

/// The test that picks the projectiles with some lifetime left.
pub open spec fn live() -> spec_fn(Projectile) -> bool {
    |p: Projectile| p.lifetime > 0
}

/// The projectiles after a step of `dt`: each one moved and aged, and those
/// dropped whose lifetime has run out.
pub open spec fn in_flight(projectiles: Seq<Projectile>, dt: int) -> Seq<Projectile> {
    projectiles.map_values(flight(dt)).filter(live())
}

/// Whether all of the projectiles are well-formed.
pub open spec fn all_wf(projectiles: Seq<Projectile>) -> bool {
    forall|i: int| 0 <= i < projectiles.len() ==> (#[trigger] projectiles[i]).wf()
}

/// A shot fired by a well-formed ship within the speed cap is well-formed.
pub proof fn lemma_shot(s: Ship, owner: usize)
    requires
        s.wf(),
        within_cap(s),
        owner < 2,
    ensures
        shot(s, owner).wf(),
        -SHIP_RADIUS <= times(cosine(s.rotation as int), SHIP_RADIUS as int) <= SHIP_RADIUS,
        -SHIP_RADIUS <= times(sine(s.rotation as int), SHIP_RADIUS as int) <= SHIP_RADIUS,
        -PROJECTILE_SPEED <= times(cosine(s.rotation as int), PROJECTILE_SPEED as int)
            <= PROJECTILE_SPEED,
        -PROJECTILE_SPEED <= times(sine(s.rotation as int), PROJECTILE_SPEED as int)
            <= PROJECTILE_SPEED,
        -MAX_SHIP_SPEED <= times(s.vx as int, INHERITED_SHARE as int) <= MAX_SHIP_SPEED,
        -MAX_SHIP_SPEED <= times(s.vy as int, INHERITED_SHARE as int) <= MAX_SHIP_SPEED,
{
    let cos = cosine(s.rotation as int);
    let sin = sine(s.rotation as int);
    lemma_sine_cosine_bounds(s.rotation as int);
    lemma_times_shrinks(SHIP_RADIUS as int, cos, SHIP_RADIUS as int);
    lemma_times_shrinks(SHIP_RADIUS as int, sin, SHIP_RADIUS as int);
    lemma_times_shrinks(PROJECTILE_SPEED as int, cos, PROJECTILE_SPEED as int);
    lemma_times_shrinks(PROJECTILE_SPEED as int, sin, PROJECTILE_SPEED as int);
    assert(times(cos, SHIP_RADIUS as int) == times(SHIP_RADIUS as int, cos)) by (nonlinear_arith);
    assert(times(sin, SHIP_RADIUS as int) == times(SHIP_RADIUS as int, sin)) by (nonlinear_arith);
    assert(times(cos, PROJECTILE_SPEED as int) == times(PROJECTILE_SPEED as int, cos))
        by (nonlinear_arith);
    assert(times(sin, PROJECTILE_SPEED as int) == times(PROJECTILE_SPEED as int, sin))
        by (nonlinear_arith);
    lemma_times_shrinks(s.vx as int, INHERITED_SHARE as int, MAX_SHIP_SPEED as int);
    lemma_times_shrinks(s.vy as int, INHERITED_SHARE as int, MAX_SHIP_SPEED as int);
    vstd::arithmetic::div_mod::lemma_mod_bound(
        s.x + times(cos, SHIP_RADIUS as int),
        ARENA_WIDTH as int,
    );
    vstd::arithmetic::div_mod::lemma_mod_bound(
        s.y + times(sin, SHIP_RADIUS as int),
        ARENA_HEIGHT as int,
    );
}

/// A well-formed projectile that outlasts a step is well-formed after it.
pub proof fn lemma_flown(p: Projectile, dt: int)
    requires
        p.wf(),
        0 <= dt <= MAX_STEP,
    ensures
        -5 * PROJECTILE_VELOCITY_LIMIT <= times(p.vx as int, dt) <= 5 * PROJECTILE_VELOCITY_LIMIT,
        -5 * PROJECTILE_VELOCITY_LIMIT <= times(p.vy as int, dt) <= 5 * PROJECTILE_VELOCITY_LIMIT,
        flown(p, dt).owner == p.owner,
        flown(p, dt).lifetime == p.lifetime - dt,
        p.lifetime > dt ==> flown(p, dt).wf(),
{
    lemma_times_stretches(p.vx as int, dt, PROJECTILE_VELOCITY_LIMIT as int, 5);
    lemma_times_stretches(p.vy as int, dt, PROJECTILE_VELOCITY_LIMIT as int, 5);
    vstd::arithmetic::div_mod::lemma_mod_bound(p.x + times(p.vx as int, dt), ARENA_WIDTH as int);
    vstd::arithmetic::div_mod::lemma_mod_bound(p.y + times(p.vy as int, dt), ARENA_HEIGHT as int);
}

/// One more projectile is one more for its owner and none for the other
/// ship.
pub proof fn lemma_owned_push(projectiles: Seq<Projectile>, p: Projectile, who: int)
    ensures
        owned(projectiles.push(p), who) == owned(projectiles, who) + if p.owner == who {
            1int
        } else {
            0int
        },
{
    projectiles.lemma_filter_len_push(owned_by(who), p);
}

/// After a step the projectiles are well-formed, and no ship owns more of
/// them than before.
pub proof fn lemma_in_flight(projectiles: Seq<Projectile>, dt: int, who: int)
    requires
        all_wf(projectiles),
        0 <= dt <= MAX_STEP,
    ensures
        all_wf(in_flight(projectiles, dt)),
        owned(in_flight(projectiles, dt), who) <= owned(projectiles, who),
        projectiles.len() > 0 ==> in_flight(projectiles, dt) == if projectiles.last().lifetime
            > dt {
            in_flight(projectiles.drop_last(), dt).push(flown(projectiles.last(), dt))
        } else {
            in_flight(projectiles.drop_last(), dt)
        },
        projectiles.len() == 0 ==> in_flight(projectiles, dt) == Seq::<Projectile>::empty(),
    decreases projectiles.len(),
{
    reveal(Seq::filter);
    if projectiles.len() > 0 {
        let rest = projectiles.drop_last();
        let last = projectiles.last();
        lemma_in_flight(rest, dt, who);
        lemma_flown(last, dt);
        assert(projectiles.map_values(flight(dt)) =~= rest.map_values(flight(dt)).push(
            flown(last, dt),
        ));
        rest.map_values(flight(dt)).lemma_filter_push(flown(last, dt), live());
        assert(projectiles =~= rest.push(last));
        lemma_owned_push(rest, last, who);
        if last.lifetime > dt {
            lemma_owned_push(in_flight(rest, dt), flown(last, dt), who);
        }
    } else {
        assert(projectiles.map_values(flight(dt)) =~= Seq::<Projectile>::empty());
    }
}

/// Counts the projectiles of ship `who`.
pub fn count_owned(projectiles: &Vec<Projectile>, who: usize) -> (n: usize)
    ensures
        n == owned(projectiles@, who as int),
{
    let mut n: usize = 0;
    let mut i: usize = 0;
    while i < projectiles.len()
        invariant
            i <= projectiles.len(),
            n == owned(projectiles@.take(i as int), who as int),
            n <= i,
        decreases projectiles.len() - i,
    {
        proof {
            assert(projectiles@.take(i + 1) =~= projectiles@.take(i as int).push(
                projectiles@[i as int],
            ));
            lemma_owned_push(projectiles@.take(i as int), projectiles@[i as int], who as int);
        }
        if projectiles[i].owner == who {
            n = n + 1;
        }
        i = i + 1;
    }
    proof {
        assert(projectiles@.take(i as int) =~= projectiles@);
    }
    n
}

/// Makes the projectile that ship number `owner` fires.
pub fn fire(s: &Ship, owner: usize) -> (p: Projectile)
    requires
        s.wf(),
        within_cap(*s),
        owner < 2,
    ensures
        p == shot(*s, owner),
        p.wf(),
{
    proof {
        lemma_shot(*s, owner);
    }
    let (sin, cos) = sin_cos(s.rotation);
    Projectile {
        x: wrap(s.x + fx_mul(cos, SHIP_RADIUS), ARENA_WIDTH),
        y: wrap(s.y + fx_mul(sin, SHIP_RADIUS), ARENA_HEIGHT),
        vx: fx_mul(cos, PROJECTILE_SPEED) + fx_mul(s.vx, INHERITED_SHARE),
        vy: fx_mul(sin, PROJECTILE_SPEED) + fx_mul(s.vy, INHERITED_SHARE),
        lifetime: PROJECTILE_LIFETIME,
        owner,
    }
}

/// Moves the projectiles through a step of `dt` and drops those whose
/// lifetime has run out.
pub fn fly(projectiles: &mut Vec<Projectile>, dt: i64)
    requires
        all_wf(old(projectiles)@),
        0 <= dt <= MAX_STEP,
    ensures
        final(projectiles)@ == in_flight(old(projectiles)@, dt as int),
        all_wf(final(projectiles)@),
{
    let mut kept: Vec<Projectile> = Vec::new();
    let mut i: usize = 0;
    proof {
        lemma_in_flight(projectiles@.take(0), dt as int, 0);
    }
    while i < projectiles.len()
        invariant
            i <= projectiles.len(),
            all_wf(projectiles@),
            0 <= dt <= MAX_STEP,
            kept@ == in_flight(projectiles@.take(i as int), dt as int),
        decreases projectiles.len() - i,
    {
        let p: Projectile = projectiles[i];
        proof {
            let upto = projectiles@.take(i + 1);
            assert(upto.drop_last() =~= projectiles@.take(i as int));
            assert(upto.last() == p);
            assert(all_wf(upto));
            lemma_in_flight(upto, dt as int, 0);
            lemma_flown(p, dt as int);
        }
        if p.lifetime > dt {
            kept.push(
                Projectile {
                    x: wrap(p.x + fx_mul(p.vx, dt), ARENA_WIDTH),
                    y: wrap(p.y + fx_mul(p.vy, dt), ARENA_HEIGHT),
                    vx: p.vx,
                    vy: p.vy,
                    lifetime: p.lifetime - dt,
                    owner: p.owner,
                },
            );
        }
        i = i + 1;
    }
    proof {
        assert(projectiles@.take(i as int) =~= projectiles@);
        lemma_in_flight(projectiles@, dt as int, 0);
    }
    *projectiles = kept;
}

} // verus!
