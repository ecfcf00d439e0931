//! Projectiles that hit ships. A projectile can only hit the ship that did
//! not fire it, and a ship dies of the first projectile that reaches it, so
//! at most one projectile is spent on each ship in a step.

use vstd::prelude::*;
use crate::game::{
    GameState, GameView, PROJECTILE_RADIUS, Projectile, SHIP_RADIUS, Ship, distance_sq,
    lemma_way_bounds, owned, owned_by, way_between,
};
use crate::volley::{all_wf, count, counted};

verus! {

/// The square of the distance within which a projectile hits a ship: the
/// sum of their radii, fourteen units, squared.
pub const HIT_DISTANCE_SQ: i64 = 282_240_000_000_000;

/// Whether the projectile is close enough to the ship to hit it.
pub open spec fn strikes(p: Projectile, target: Ship) -> bool {
    distance_sq(p.x as int, p.y as int, target.x as int, target.y as int) < HIT_DISTANCE_SQ
}

/// The index of the first projectile from `from` on that `shooter` owns and
/// that strikes `target`, or the number of projectiles if there is none.
pub open spec fn first_strike(
    projectiles: Seq<Projectile>,
    shooter: int,
    target: Ship,
    from: int,
) -> int
    decreases projectiles.len() - from,
{
    if from < 0 || from >= projectiles.len() {
        projectiles.len() as int
    } else if projectiles[from].owner == shooter && strikes(projectiles[from], target) {
        from
    } else {
        first_strike(projectiles, shooter, target, from + 1)
    }
}

/// The index of the projectile that kills ship `target` in this step, or
/// the number of projectiles if the ship is dead already or is not hit.
pub open spec fn killer(s: GameView, target: int) -> int {
    if s.ships[target].alive {
        first_strike(s.projectiles, 1 - target, s.ships[target], 0)
    } else {
        s.projectiles.len() as int
    }
}

/// The projectiles without the one at index `i`, if there is one.
pub open spec fn without(projectiles: Seq<Projectile>, i: int) -> Seq<Projectile> {
    if 0 <= i < projectiles.len() {
        projectiles.remove(i)
    } else {
        projectiles
    }
}

/// A ship after the strikes of a step: dead if it was killed, and credited
/// with a hit if it killed.
pub open spec fn struck(s: Ship, killed: bool, scored: bool) -> Ship {
    Ship {
        alive: s.alive && !killed,
        hits_scored: if scored {
            counted(s.hits_scored)
        } else {
            s.hits_scored
        },
        ..s
    }
}

/// The smaller of two indices.
pub open spec fn lower(a: int, b: int) -> int {
    if a <= b {
        a
    } else {
        b
    }
}

/// The larger of two indices.
pub open spec fn upper(a: int, b: int) -> int {
    if a <= b {
        b
    } else {
        a
    }
}

/// The match after the strikes of a step: each ship that a projectile of
/// the other one reaches dies, its killer is credited, and the projectile
/// that killed it is spent.
pub open spec fn after_strikes(s: GameView) -> GameView {
    GameView {
        ships: seq![
            struck(
                s.ships[0],
                killer(s, 0) < s.projectiles.len(),
                killer(s, 1) < s.projectiles.len(),
            ),
            struck(
                s.ships[1],
                killer(s, 1) < s.projectiles.len(),
                killer(s, 0) < s.projectiles.len(),
            ),
        ],
        projectiles: without(
            without(s.projectiles, upper(killer(s, 0), killer(s, 1))),
            lower(killer(s, 0), killer(s, 1)),
        ),
        ..s
    }
}

/// The indices among `lo <= hi` that lie below `upto`, in rising order.
pub open spec fn fallen(lo: int, hi: int, upto: int) -> Seq<usize> {
    if hi < upto {
        seq![lo as usize, hi as usize]
    } else if lo < upto {
        seq![lo as usize]
    } else {
        Seq::empty()
    }
}

/// What `first_strike` finds is the least index from `from` on of a
/// projectile of `shooter` that strikes `target`.
pub proof fn lemma_first_strike(
    projectiles: Seq<Projectile>,
    shooter: int,
    target: Ship,
    from: int,
)
    requires
        0 <= from <= projectiles.len(),
    ensures
        from <= first_strike(projectiles, shooter, target, from) <= projectiles.len(),
        first_strike(projectiles, shooter, target, from) < projectiles.len() ==> {
            &&& projectiles[first_strike(projectiles, shooter, target, from)].owner == shooter
            &&& strikes(projectiles[first_strike(projectiles, shooter, target, from)], target)
        },
        forall|j: int|
            from <= j < first_strike(projectiles, shooter, target, from) ==> !(
            #[trigger] projectiles[j].owner == shooter && strikes(projectiles[j], target)),
    decreases projectiles.len() - from,
{
    if from < projectiles.len() && !(projectiles[from].owner == shooter && strikes(
        projectiles[from],
        target,
    )) {
        lemma_first_strike(projectiles, shooter, target, from + 1);
    }
}

/// Taking one projectile out takes it from its owner's count, and leaves
/// the others well-formed.
pub proof fn lemma_without(projectiles: Seq<Projectile>, i: int, who: int)
    requires
        all_wf(projectiles),
    ensures
        all_wf(without(projectiles, i)),
        owned(without(projectiles, i), who) <= owned(projectiles, who),
{
    if 0 <= i < projectiles.len() {
        let head = projectiles.subrange(0, i);
        let tail = projectiles.subrange(i + 1, projectiles.len() as int);
        assert(projectiles =~= head.push(projectiles[i]) + tail);
        Seq::filter_distributes_over_add(head.push(projectiles[i]), tail, owned_by(who));
        Seq::filter_distributes_over_add(head, tail, owned_by(who));
        head.lemma_filter_len_push(owned_by(who), projectiles[i]);
    }
}

/// The strikes of a step keep a well-formed match well-formed, but for the
/// winner, which is settled afterwards.
pub proof fn lemma_after_strikes(s: GameView)
    requires
        s.wf(),
        s.winner is None,
    ensures
        after_strikes(s).wf(),
        0 <= killer(s, 0) <= s.projectiles.len(),
        0 <= killer(s, 1) <= s.projectiles.len(),
        killer(s, 0) < s.projectiles.len() ==> killer(s, 0) != killer(s, 1),
{
    let n = s.projectiles.len() as int;
    lemma_first_strike(s.projectiles, 1, s.ships[0], 0);
    lemma_first_strike(s.projectiles, 0, s.ships[1], 0);
    let hi = upper(killer(s, 0), killer(s, 1));
    let lo = lower(killer(s, 0), killer(s, 1));
    lemma_without(s.projectiles, hi, 0);
    lemma_without(s.projectiles, hi, 1);
    lemma_without(without(s.projectiles, hi), lo, 0);
    lemma_without(without(s.projectiles, hi), lo, 1);
}

impl GameState {
    /// Lets every projectile that reaches the other ship kill it, credits
    /// the hit, and takes the spent projectiles out of flight.
    pub fn resolve_strikes(&mut self)
        requires
            old(self).wf(),
            old(self).winner is None,
        ensures
            final(self)@ == after_strikes(old(self)@),
            final(self).wf(),
    {
        let ghost before = self@;
        let ghost n = before.projectiles.len() as int;
        let ghost k0 = killer(before, 0);
        let ghost k1 = killer(before, 1);
        let ghost lo = lower(k0, k1);
        let ghost hi = upper(k0, k1);
        proof {
            lemma_after_strikes(before);
            lemma_first_strike(before.projectiles, 1, before.ships[0], 0);
            lemma_first_strike(before.projectiles, 0, before.ships[1], 0);
        }
        let mut dead: Vec<usize> = Vec::new();
        let mut i: usize = 0;
        while i < self.projectiles.len()
            invariant
                i <= n,
                before.wf(),
                n == before.projectiles.len(),
                k0 == killer(before, 0),
                k1 == killer(before, 1),
                lo == lower(k0, k1),
                hi == upper(k0, k1),
                0 <= k0 <= n,
                0 <= k1 <= n,
                k0 < n ==> k0 != k1,
                self.projectiles@ == before.projectiles,
                self.time == before.time,
                self.match_over == before.match_over,
                self.winner == before.winner,
                self.ships[0] == struck(before.ships[0], k0 < i, k1 < i),
                self.ships[1] == struck(before.ships[1], k1 < i, k0 < i),
                dead@ == fallen(lo, hi, i as int),
            decreases n - i,
        {
            let p: Projectile = self.projectiles[i];
            assert(p.wf());
            let target: usize = 1 - p.owner;
            let ghost k = if target == 0 { k0 } else { k1 };
            let mut hit: bool = false;
            if self.ships[target].alive {
                proof {
                    lemma_way_bounds(
                        p.x as int,
                        p.y as int,
                        self.ships[target as int].x as int,
                        self.ships[target as int].y as int,
                    );
                }
                let (_dx, _dy, dist_sq) = way_between(
                    p.x,
                    p.y,
                    self.ships[target].x,
                    self.ships[target].y,
                );
                hit = dist_sq < HIT_DISTANCE_SQ;
            }
            proof {
                lemma_first_strike(before.projectiles, 1 - target, before.ships[target as int], 0);
                lemma_first_strike(before.projectiles, target as int, before.ships[1 - target], 0);
                assert(hit <==> k == i);
                assert(k0 != i || k1 != i);
                assert(!hit ==> k0 != i && k1 != i);
            }
            if hit {
                self.ships[target].alive = false;
                self.ships[p.owner].hits_scored = count(self.ships[p.owner].hits_scored);
                dead.push(i);
            }
            i = i + 1;
            proof {
                assert(dead@ =~= fallen(lo, hi, i as int));
            }
        }
        proof {
            assert(self.ships@ =~= after_strikes(before).ships);
        }
        if dead.len() == 2 {
            self.projectiles.remove(dead[1]);
            self.projectiles.remove(dead[0]);
        } else if dead.len() == 1 {
            self.projectiles.remove(dead[0]);
        }
    }
}

/// A projectile hits a ship where their centres are closer than the sum
/// of their radii.
pub proof fn lemma_hit_distance()
    ensures
        HIT_DISTANCE_SQ == (SHIP_RADIUS + PROJECTILE_RADIUS) * (SHIP_RADIUS + PROJECTILE_RADIUS),
{
    assert((SHIP_RADIUS + PROJECTILE_RADIUS) * (SHIP_RADIUS + PROJECTILE_RADIUS)
        == 282_240_000_000_000) by (nonlinear_arith)
        requires
            SHIP_RADIUS == 14_400_000,
            PROJECTILE_RADIUS == 2_400_000,
    ;
}

} // verus!
