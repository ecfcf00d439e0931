//! A whole match between two pilots, played at sixty steps a second, and
//! what each of them earns by it.

use vstd::prelude::*;
use crate::fixed::{ONE, length, lemma_quot_bound, lemma_root_up, measure, quot};
use crate::game::{
    GameState, GameView, MATCH_DURATION, lemma_end_of_match, lemma_stepped_counters,
    lemma_stepped_wf, lemma_way_bounds, random_opening, stepped, way, way_between,
};
use crate::genome::{GENOME_SIZE, Genome, forward};
use crate::motion::Controls;
use crate::sensors::{remoteness, remoteness_of, sensed};
use rand::rngs::StdRng;

verus! {

/// The span of one step of a match: a sixtieth of a second.
pub const SIM_DT: i64 = 20_000;

/// The number of steps after which time is up.
pub const SIM_STEPS: usize = 1800;

/// What a ship earns by being the sole survivor.
pub const WIN_BONUS: i64 = 100 * ONE;

/// What a ship loses by dying.
pub const DEATH_PENALTY: i64 = 20 * ONE;

/// What a ship earns by each hit.
pub const HIT_BONUS: i64 = 50 * ONE;

/// What a ship earns if every shot of it hits; it earns the share of it
/// that does.
pub const ACCURACY_BONUS: i64 = 30;

/// What a ship earns by each shot, up to `ENGAGEMENT_SHOTS` of them.
pub const ENGAGEMENT_BONUS: i64 = 600_000;

/// The number of shots that are rewarded.
pub const ENGAGEMENT_SHOTS: usize = 20;

/// What a ship earns by staying on top of its opponent for the whole
/// match; it earns the average of what it earns at each step.
pub const PROXIMITY_BONUS: i64 = 20;

/// What a living ship earns by the whole duration of a match; it earns the
/// share of it that has passed.
pub const SURVIVAL_BONUS: i64 = 15;

/// What a dead ship earns by the whole duration of a match.
pub const ENDURANCE_BONUS: i64 = 5;

/// No pilot earns more than this by one match.
pub const FITNESS_MAX: i64 = 225 * ONE;

#[derive(Clone, Debug)]
pub struct MatchResult {
    pub fitness: [i64; 2],
}

/// How far a match has come: its state, how many steps have been played,
/// and the sum over those steps of the closeness of the ships.
pub struct Course {
    pub state: GameView,
    pub closeness: int,
    pub ticks: int,
}

/// The controls that the network with the given weights sets for ship
/// `who`.
pub open spec fn decided(weights: Seq<i64>, s: GameView, who: int) -> Controls {
    Controls::of(forward(weights, sensed(s, who)))
}

/// The match one step on, each ship steered by its network.
pub open spec fn ticked(w0: Seq<i64>, w1: Seq<i64>, s: GameView) -> GameView {
    stepped(s, SIM_DT as int, decided(w0, s, 0), decided(w1, s, 1))
}

/// How close the ships are: one where they are in one place, zero from a
/// distance of five hundred units on.
pub open spec fn closeness(s: GameView) -> int {
    ONE - remoteness(
        length(
            way(
                s.ships[0].x as int,
                s.ships[0].y as int,
                s.ships[1].x as int,
                s.ships[1].y as int,
            ).0,
            way(
                s.ships[0].x as int,
                s.ships[0].y as int,
                s.ships[1].x as int,
                s.ships[1].y as int,
            ).1,
        ),
    )
}

/// The course of the match that begins at `start`, after `n` rounds: in
/// each round a running match advances by one step, and a match that is
/// over stays as it is.
pub open spec fn course(w0: Seq<i64>, w1: Seq<i64>, start: GameView, n: nat) -> Course
    decreases n,
{
    if n == 0 {
        Course { state: start, closeness: 0, ticks: 0 }
    } else if course(w0, w1, start, (n - 1) as nat).state.match_over {
        course(w0, w1, start, (n - 1) as nat)
    } else {
        Course {
            state: ticked(w0, w1, course(w0, w1, start, (n - 1) as nat).state),
            closeness: course(w0, w1, start, (n - 1) as nat).closeness + closeness(
                ticked(w0, w1, course(w0, w1, start, (n - 1) as nat).state),
            ),
            ticks: course(w0, w1, start, (n - 1) as nat).ticks + 1,
        }
    }
}

/// The closeness of the ships, averaged over the steps played.
pub open spec fn average_closeness(c: Course) -> int {
    if c.ticks > 0 {
        c.closeness / c.ticks
    } else {
        0
    }
}

/// The share of the match duration that has passed, at most one.
pub open spec fn elapsed_share(time: int) -> int {
    if time / 30 < ONE {
        time / 30
    } else {
        ONE as int
    }
}

/// What the pilot of ship `who` earns by the match: a bonus for winning,
/// a penalty for dying, and rewards for hits, for accuracy, for shots, for
/// closeness and for the time survived.
#[verifier::opaque]
pub open spec fn fitness_of(c: Course, who: int) -> int {
    (if c.state.ships[who].alive && !c.state.ships[1 - who].alive {
        WIN_BONUS as int
    } else {
        0
    }) - (if c.state.ships[who].alive {
        0
    } else {
        DEATH_PENALTY as int
    }) + c.state.ships[who].hits_scored * HIT_BONUS + (if c.state.ships[who].shots_fired > 0 {
        ACCURACY_BONUS * quot(
            c.state.ships[who].hits_scored * ONE,
            c.state.ships[who].shots_fired as int,
        )
    } else {
        0
    }) + (if c.state.ships[who].shots_fired < ENGAGEMENT_SHOTS {
        c.state.ships[who].shots_fired as int
    } else {
        ENGAGEMENT_SHOTS as int
    }) * ENGAGEMENT_BONUS + PROXIMITY_BONUS * average_closeness(c) + (if c.state.ships[who].alive {
        SURVIVAL_BONUS as int
    } else {
        ENDURANCE_BONUS as int
    }) * elapsed_share(c.state.time)
}

/// What the two pilots earn by the match that begins at `start`.
pub open spec fn outcome(w0: Seq<i64>, w1: Seq<i64>, start: GameView) -> Seq<i64> {
    seq![
        fitness_of(course(w0, w1, start, SIM_STEPS as nat), 0) as i64,
        fitness_of(course(w0, w1, start, SIM_STEPS as nat), 1) as i64,
    ]
}

/// Whether `result` is what two pilots with the weights `w0` and `w1` can
/// earn by a match: what they earn by the match from some random start.
pub open spec fn earned(w0: Seq<i64>, w1: Seq<i64>, result: Seq<i64>) -> bool {
    exists|start: GameView| random_opening(start) && result == #[trigger] outcome(w0, w1, start)
}

/// Whether a match is about to begin: it is well-formed and running, no
/// time has passed, both ships live and have neither fired nor hit.
pub open spec fn fresh(s: GameView) -> bool {
    &&& s.wf()
    &&& s.time == 0
    &&& !s.match_over
    &&& forall|i: int|
        0 <= i < 2 ==> (#[trigger] s.ships[i]).alive && s.ships[i].shots_fired == 0
            && s.ships[i].hits_scored == 0
}

/// What holds all along the course of a match that began fresh: the state
/// is well-formed, the clock shows the steps played, the closeness summed
/// up is at most one for each step, no ship has fired more often than once
/// a step, a ship has one hit if its opponent is dead and none if not, and
/// while the match runs both ships live.
pub open spec fn on_course(c: Course) -> bool {
    &&& c.state.wf()
    &&& 0 <= c.ticks
    &&& c.state.time == c.ticks * SIM_DT
    &&& 0 <= c.closeness <= c.ticks * ONE
    &&& forall|i: int|
        0 <= i < 2 ==> (#[trigger] c.state.ships[i]).shots_fired <= c.ticks
            && c.state.ships[i].hits_scored == if c.state.ships[1 - i].alive {
            0int
        } else {
            1int
        }
    &&& !c.state.match_over ==> c.state.ships[0].alive && c.state.ships[1].alive
}

/// The closeness of two ships of a well-formed match lies between zero and
/// one.
pub proof fn lemma_closeness(s: GameView)
    requires
        s.wf(),
    ensures
        0 <= closeness(s) <= ONE,
{
    let a = s.ships[0];
    let b = s.ships[1];
    lemma_way_bounds(a.x as int, a.y as int, b.x as int, b.y as int);
    let w = way(a.x as int, a.y as int, b.x as int, b.y as int);
    lemma_root_up(w.0 * w.0 + w.1 * w.1);
}

/// Whatever the weights, the controls that a network sets are well-formed.
pub proof fn lemma_decided(weights: Seq<i64>, s: GameView, who: int)
    ensures
        decided(weights, s, who).wf(),
{
}

/// One step keeps a match on its course.
pub proof fn lemma_ticked(w0: Seq<i64>, w1: Seq<i64>, c: Course)
    requires
        on_course(c),
        !c.state.match_over,
        c.ticks < SIM_STEPS,
    ensures
        on_course(
            Course {
                state: ticked(w0, w1, c.state),
                closeness: c.closeness + closeness(ticked(w0, w1, c.state)),
                ticks: c.ticks + 1,
            },
        ),
{
    let s = c.state;
    let c0 = decided(w0, s, 0);
    let c1 = decided(w1, s, 1);
    lemma_decided(w0, s, 0);
    lemma_decided(w1, s, 1);
    lemma_stepped_wf(s, SIM_DT as int, c0, c1);
    lemma_stepped_counters(s, SIM_DT as int, c0, c1, 0);
    lemma_stepped_counters(s, SIM_DT as int, c0, c1, 1);
    lemma_end_of_match(s, SIM_DT as int, c0, c1);
    lemma_closeness(ticked(w0, w1, s));
    assert((c.ticks + 1) * SIM_DT == c.ticks * SIM_DT + SIM_DT) by (nonlinear_arith);
    assert((c.ticks + 1) * ONE == c.ticks * ONE + ONE) by (nonlinear_arith);
}

/// A match that began fresh is on its course after any number of rounds,
/// and has played no more steps than rounds.
pub proof fn lemma_course(w0: Seq<i64>, w1: Seq<i64>, start: GameView, n: nat)
    requires
        fresh(start),
        n <= SIM_STEPS,
    ensures
        on_course(course(w0, w1, start, n)),
        course(w0, w1, start, n).ticks <= n,
    decreases n,
{
    if n > 0 {
        lemma_course(w0, w1, start, (n - 1) as nat);
        let c = course(w0, w1, start, (n - 1) as nat);
        if !c.state.match_over {
            lemma_ticked(w0, w1, c);
        }
    } else {
        assert(start.ships[0].alive && start.ships[1].alive);
    }
}

/// A match that began fresh is over after `SIM_STEPS` rounds at the
/// latest: while it runs every round is a step, and with the last of them
/// time is up.
pub proof fn lemma_match_ends(w0: Seq<i64>, w1: Seq<i64>, start: GameView, n: nat)
    requires
        fresh(start),
        n <= SIM_STEPS,
    ensures
        !course(w0, w1, start, n).state.match_over ==> course(w0, w1, start, n).ticks == n,
        n == SIM_STEPS ==> course(w0, w1, start, n).state.match_over,
    decreases n,
{
    if n > 0 {
        lemma_match_ends(w0, w1, start, (n - 1) as nat);
        lemma_course(w0, w1, start, (n - 1) as nat);
        let c = course(w0, w1, start, (n - 1) as nat);
        if !c.state.match_over {
            lemma_end_of_match(c.state, SIM_DT as int, decided(w0, c.state, 0), decided(w1, c.state, 1));
            assert((n - 1) * SIM_DT + SIM_DT == n * SIM_DT) by (nonlinear_arith);
        }
    }
}

/// A match is decided by the weights of its pilots and by its start alone:
/// two matches that agree in these take the same course, round for round,
/// and the pilots earn the same by both.
pub proof fn lemma_deterministic(
    a0: Genome,
    a1: Genome,
    a: GameState,
    b0: Genome,
    b1: Genome,
    b: GameState,
    n: nat,
)
    requires
        a0.weights@ == b0.weights@,
        a1.weights@ == b1.weights@,
        a@ == b@,
    ensures
        course(a0.weights@, a1.weights@, a@, n) == course(b0.weights@, b1.weights@, b@, n),
        ticked(a0.weights@, a1.weights@, a@) == ticked(b0.weights@, b1.weights@, b@),
        outcome(a0.weights@, a1.weights@, a@) == outcome(b0.weights@, b1.weights@, b@),
{
}

/// Once a match is over, further rounds change nothing.
pub proof fn lemma_course_settles(w0: Seq<i64>, w1: Seq<i64>, start: GameView, k: nat, n: nat)
    requires
        k <= n,
        course(w0, w1, start, k).state.match_over,
    ensures
        course(w0, w1, start, n) == course(w0, w1, start, k),
    decreases n,
{
    if n > k {
        lemma_course_settles(w0, w1, start, k, (n - 1) as nat);
    }
}

/// What a pilot can earn by a match that is on its course lies between
/// the death penalty and the sum of all rewards.
pub proof fn lemma_fitness_bounds(c: Course, who: int)
    requires
        on_course(c),
        c.ticks <= SIM_STEPS,
        0 <= who < 2,
    ensures
        0 <= average_closeness(c) <= ONE,
        0 <= elapsed_share(c.state.time) <= ONE,
        c.state.ships[who].shots_fired > 0 ==> 0 <= quot(
            c.state.ships[who].hits_scored * ONE,
            c.state.ships[who].shots_fired as int,
        ) <= ONE,
        c.state.ships[who].shots_fired <= SIM_STEPS,
        c.state.ships[who].hits_scored <= 1,
        -DEATH_PENALTY <= fitness_of(c, who) <= FITNESS_MAX,
{
    reveal(fitness_of);
    let ship = c.state.ships[who];
    let opp = c.state.ships[1 - who];
    if c.ticks > 0 {
        assert(0 <= c.closeness / c.ticks <= ONE) by (nonlinear_arith)
            requires
                0 <= c.closeness <= c.ticks * ONE,
                c.ticks > 0,
        ;
    }
    assert(c.state.time >= 0);
    if ship.shots_fired > 0 {
        assert(0 <= ship.hits_scored * ONE <= ONE) by (nonlinear_arith)
            requires
                0 <= ship.hits_scored <= 1,
        ;
        lemma_quot_bound(ship.hits_scored * ONE, ship.shots_fired as int, ONE as int);
    }
    let hit_part = ship.hits_scored * HIT_BONUS;
    assert(hit_part == if opp.alive { 0 } else { 60_000_000int }) by (nonlinear_arith)
        requires
            hit_part == ship.hits_scored * HIT_BONUS,
            ship.hits_scored == if opp.alive { 0int } else { 1int },
            HIT_BONUS == 60_000_000,
    ;
    let rewarded = if ship.shots_fired < ENGAGEMENT_SHOTS {
        ship.shots_fired as int
    } else {
        ENGAGEMENT_SHOTS as int
    };
    assert(0 <= rewarded * ENGAGEMENT_BONUS <= 12_000_000) by (nonlinear_arith)
        requires
            0 <= rewarded <= 20,
            ENGAGEMENT_BONUS == 600_000,
    ;
    assert(0 <= PROXIMITY_BONUS * average_closeness(c) <= 24_000_000) by (nonlinear_arith)
        requires
            0 <= average_closeness(c) <= ONE,
            ONE == 1_200_000,
            PROXIMITY_BONUS == 20,
    ;
    let share = elapsed_share(c.state.time);
    assert(0 <= SURVIVAL_BONUS * share <= 18_000_000 && 0 <= ENDURANCE_BONUS * share <= 6_000_000)
        by (nonlinear_arith)
        requires
            0 <= share <= ONE,
            ONE == 1_200_000,
            SURVIVAL_BONUS == 15,
            ENDURANCE_BONUS == 5,
    ;
    if ship.shots_fired > 0 {
        let accuracy = quot(ship.hits_scored * ONE, ship.shots_fired as int);
        assert(0 <= ACCURACY_BONUS * accuracy <= 36_000_000) by (nonlinear_arith)
            requires
                0 <= accuracy <= ONE,
                ONE == 1_200_000,
                ACCURACY_BONUS == 30,
        ;
    }
}

/// Computes what the pilot of ship `who` earns by a match.
pub fn fitness(state: &GameState, who: usize, closeness: i64, ticks: usize) -> (f: i64)
    requires
        who < 2,
        ticks <= SIM_STEPS,
        on_course(Course { state: state@, closeness: closeness as int, ticks: ticks as int }),
    ensures
        f == fitness_of(
            Course { state: state@, closeness: closeness as int, ticks: ticks as int },
            who as int,
        ),
        -DEATH_PENALTY <= f <= FITNESS_MAX,
{
    let ghost c = Course { state: state@, closeness: closeness as int, ticks: ticks as int };
    proof {
        reveal(fitness_of);
        lemma_fitness_bounds(c, who as int);
    }
    let ship = &state.ships[who];
    let opp = &state.ships[1 - who];
    let hits: i64 = ship.hits_scored as i64;
    let shots: i64 = ship.shots_fired as i64;
    let verdict: i64 = (if ship.alive && !opp.alive {
        WIN_BONUS
    } else {
        0
    }) - (if ship.alive {
        0
    } else {
        DEATH_PENALTY
    });
    let for_hits: i64 = hits * HIT_BONUS;
    let for_accuracy: i64 = if shots > 0 {
        ACCURACY_BONUS * ((hits * ONE) / shots)
    } else {
        0
    };
    let rewarded: i64 = if ship.shots_fired < ENGAGEMENT_SHOTS {
        shots
    } else {
        ENGAGEMENT_SHOTS as i64
    };
    let for_shots: i64 = rewarded * ENGAGEMENT_BONUS;
    let average: i64 = if ticks > 0 {
        closeness / (ticks as i64)
    } else {
        0
    };
    let for_closeness: i64 = PROXIMITY_BONUS * average;
    let share: i64 = if state.time / 30 < ONE {
        state.time / 30
    } else {
        ONE
    };
    let for_time: i64 = if ship.alive {
        SURVIVAL_BONUS * share
    } else {
        ENDURANCE_BONUS * share
    };
    verdict + for_hits + for_accuracy + for_shots + for_closeness + for_time
}

/// Measures how close the two ships are.
fn closeness_of(state: &GameState) -> (r: i64)
    requires
        state.wf(),
    ensures
        r == closeness(state@),
        0 <= r <= ONE,
{
    proof {
        lemma_way_bounds(
            state.ships[0].x as int,
            state.ships[0].y as int,
            state.ships[1].x as int,
            state.ships[1].y as int,
        );
        lemma_closeness(state@);
    }
    let (dx, dy, _dist_sq) = way_between(
        state.ships[0].x,
        state.ships[0].y,
        state.ships[1].x,
        state.ships[1].y,
    );
    ONE - remoteness_of(measure(dx, dy))
}

/// Advances a match by one step, each ship steered by its pilot.
pub fn tick(g1: &Genome, g2: &Genome, state: &mut GameState)
    requires
        g1.wf(),
        g2.wf(),
        old(state).wf(),
    ensures
        final(state)@ == ticked(g1.weights@, g2.weights@, old(state)@),
        final(state).wf(),
{
    let inputs0: [i64; 14] = Genome::get_inputs(state, 0);
    let inputs1: [i64; 14] = Genome::get_inputs(state, 1);
    let actions0: [i64; 4] = g1.evaluate(&inputs0);
    let actions1: [i64; 4] = g2.evaluate(&inputs1);
    let actions: [[i64; 4]; 2] = [actions0, actions1];
    state.update(SIM_DT, &actions);
}

/// Plays the match that begins at `state` to its end and says what each
/// pilot has earned.
pub fn play(g1: &Genome, g2: &Genome, state: GameState) -> (r: MatchResult)
    requires
        g1.wf(),
        g2.wf(),
        fresh(state@),
    ensures
        r.fitness@ == outcome(g1.weights@, g2.weights@, state@),
        forall|i: int| 0 <= i < 2 ==> -DEATH_PENALTY <= #[trigger] r.fitness[i] <= FITNESS_MAX,
{
    let ghost start = state@;
    let ghost w0 = g1.weights@;
    let ghost w1 = g2.weights@;
    let mut state = state;
    let mut proximity_sum: i64 = 0;
    let mut step_count: usize = 0;
    let mut k: usize = 0;
    proof {
        lemma_course(w0, w1, start, 0);
    }
    while k < SIM_STEPS && !state.match_over
        invariant
            k <= SIM_STEPS,
            g1.wf(),
            g2.wf(),
            w0 == g1.weights@,
            w1 == g2.weights@,
            fresh(start),
            state@ == course(w0, w1, start, k as nat).state,
            proximity_sum == course(w0, w1, start, k as nat).closeness,
            step_count == course(w0, w1, start, k as nat).ticks,
            step_count <= k,
            on_course(course(w0, w1, start, k as nat)),
        decreases SIM_STEPS - k,
    {
        proof {
            lemma_course(w0, w1, start, (k + 1) as nat);
            lemma_fitness_bounds(course(w0, w1, start, k as nat), 0);
            lemma_fitness_bounds(course(w0, w1, start, k as nat), 1);
            assert(step_count * SIM_DT <= SIM_STEPS * SIM_DT) by (nonlinear_arith)
                requires
                    step_count <= SIM_STEPS,
            ;
            assert(step_count * ONE <= SIM_STEPS * ONE) by (nonlinear_arith)
                requires
                    step_count <= SIM_STEPS,
            ;
        }
        tick(g1, g2, &mut state);
        proximity_sum = proximity_sum + closeness_of(&state);
        step_count = step_count + 1;
        k = k + 1;
    }
    proof {
        if k < SIM_STEPS {
            lemma_course_settles(w0, w1, start, k as nat, SIM_STEPS as nat);
        }
    }
    let f0: i64 = fitness(&state, 0, proximity_sum, step_count);
    let f1: i64 = fitness(&state, 1, proximity_sum, step_count);
    let r = MatchResult { fitness: [f0, f1] };
    proof {
        assert(r.fitness@ =~= outcome(w0, w1, start));
    }
    r
}

/// Plays a match between two pilots from a random start and says what each
/// of them has earned.
pub fn run_match(g1: &Genome, g2: &Genome, rng: &mut StdRng) -> (r: MatchResult)
    requires
        g1.wf(),
        g2.wf(),
    ensures
        forall|i: int| 0 <= i < 2 ==> -DEATH_PENALTY <= #[trigger] r.fitness[i] <= FITNESS_MAX,
        earned(g1.weights@, g2.weights@, r.fitness@),
{
    let state: GameState = GameState::new_random(rng);
    proof {
        assert(state@.ships[0].alive && state@.ships[1].alive);
    }
    play(g1, g2, state)
}

/// Sixty steps make a second, and `SIM_STEPS` of them the duration of a
/// match; the bounds of what a pilot can earn are the sums of the rewards.
pub proof fn lemma_match_constants()
    ensures
        60 * SIM_DT == ONE,
        SIM_STEPS * SIM_DT == MATCH_DURATION,
        30 * ONE == MATCH_DURATION,
        2 * ENGAGEMENT_BONUS == ONE,
        FITNESS_MAX == WIN_BONUS + HIT_BONUS + ACCURACY_BONUS * ONE + ENGAGEMENT_SHOTS
            * ENGAGEMENT_BONUS + PROXIMITY_BONUS * ONE + SURVIVAL_BONUS * ONE,
{
    assert(SIM_STEPS * SIM_DT == 36_000_000) by (nonlinear_arith)
        requires
            SIM_STEPS == 1800,
            SIM_DT == 20_000,
    ;
    assert(ACCURACY_BONUS * ONE + ENGAGEMENT_SHOTS * ENGAGEMENT_BONUS + PROXIMITY_BONUS * ONE
        + SURVIVAL_BONUS * ONE == 90_000_000) by (nonlinear_arith)
        requires
            ACCURACY_BONUS == 30,
            ENGAGEMENT_SHOTS == 20,
            ENGAGEMENT_BONUS == 600_000,
            PROXIMITY_BONUS == 20,
            SURVIVAL_BONUS == 15,
            ONE == 1_200_000,
    ;
}

/// Whether the pilot with the given weights never pulls the trigger of
/// ship `who`, whatever it sees.
pub open spec fn holds_fire(weights: Seq<i64>, who: int) -> bool {
    forall|s: GameView| !(#[trigger] decided(weights, s, who)).fire
}

/// Weights that are all zero weigh every sum to zero.
pub proof fn lemma_dot_of_zero(weights: Seq<i64>, base: int, signals: Seq<i64>, n: int)
    requires
        0 <= base,
        0 <= n,
        base + n <= weights.len(),
        forall|i: int| 0 <= i < weights.len() ==> #[trigger] weights[i] == 0,
    ensures
        crate::genome::dot(weights, base, signals, n) == 0,
    decreases n,
{
    if n > 0 {
        lemma_dot_of_zero(weights, base, signals, n - 1);
        assert(weights[base + n - 1] == 0);
        assert(weights[base + n - 1] * signals[n - 1] == 0) by (nonlinear_arith)
            requires
                weights[base + n - 1] == 0,
        ;
    }
}

/// The pilot whose weights are all zero puts out a half for every signal,
/// and so never pulls the trigger.
pub proof fn lemma_zero_holds_fire(weights: Seq<i64>, who: int)
    requires
        weights.len() == GENOME_SIZE,
        forall|i: int| 0 <= i < weights.len() ==> #[trigger] weights[i] == 0,
    ensures
        holds_fire(weights, who),
        forall|inputs: Seq<i64>, o: int|
            0 <= o < 4 ==> #[trigger] forward(weights, inputs)[o] == ONE / 2,
{
    reveal(forward);
    assert forall|inputs: Seq<i64>, o: int| 0 <= o < 4 implies #[trigger] forward(
        weights,
        inputs,
    )[o] == ONE / 2 by {
        let hidden = crate::genome::hidden_layer(weights, inputs);
        lemma_dot_of_zero(weights, crate::genome::output_base(o), hidden, 20);
        assert(weights[crate::genome::output_base(o) + 20] == 0);
        crate::activation::lemma_sigmoid_bounds(0);
        assert(quot(0, ONE as int) == 0);
    }
    assert forall|s: GameView| !(#[trigger] decided(weights, s, who)).fire by {
        assert(forward(weights, sensed(s, who))[3] == ONE / 2);
    }
}

/// A match that begins fresh is no danger to a ship whose opponent has no
/// projectile in flight and a pilot that never pulls the trigger: after any
/// number of rounds the ship is alive, and its opponent has fired nothing.
pub proof fn lemma_unarmed_course(
    w0: Seq<i64>,
    w1: Seq<i64>,
    start: GameView,
    who: int,
    n: nat,
)
    requires
        fresh(start),
        0 <= who < 2,
        crate::game::owned(start.projectiles, who) == 0,
        who == 0 ==> holds_fire(w0, 0),
        who == 1 ==> holds_fire(w1, 1),
        n <= SIM_STEPS,
    ensures
        course(w0, w1, start, n).state.ships[1 - who].alive,
        course(w0, w1, start, n).state.ships[who].shots_fired == 0,
        crate::game::owned(course(w0, w1, start, n).state.projectiles, who) == 0,
    decreases n,
{
    if n > 0 {
        lemma_unarmed_course(w0, w1, start, who, (n - 1) as nat);
        lemma_course(w0, w1, start, (n - 1) as nat);
        let c = course(w0, w1, start, (n - 1) as nat);
        if !c.state.match_over {
            let c0 = decided(w0, c.state, 0);
            let c1 = decided(w1, c.state, 1);
            lemma_decided(w0, c.state, 0);
            lemma_decided(w1, c.state, 1);
            crate::game::lemma_stepped_unarmed(c.state, SIM_DT as int, c0, c1, who);
        }
    } else {
        assert(start.ships[1 - who].alive && start.ships[who].shots_fired == 0);
    }
}

/// How a match ends for a ship whose opponent never fires: the match that
/// began fresh is over after `SIM_STEPS` rounds, the ship is alive, and it
/// has scored a hit or time is up. This holds whatever its own pilot does;
/// the pilot whose weights are all zero is an opponent that never fires.
pub proof fn lemma_safe_from_the_unarmed(w0: Seq<i64>, w1: Seq<i64>, start: GameView, who: int)
    requires
        fresh(start),
        0 <= who < 2,
        crate::game::owned(start.projectiles, who) == 0,
        who == 0 ==> holds_fire(w0, 0),
        who == 1 ==> holds_fire(w1, 1),
    ensures
        course(w0, w1, start, SIM_STEPS as nat).state.match_over,
        course(w0, w1, start, SIM_STEPS as nat).ticks <= SIM_STEPS,
        course(w0, w1, start, SIM_STEPS as nat).state.ships[1 - who].alive,
        course(w0, w1, start, SIM_STEPS as nat).state.ships[1 - who].hits_scored >= 1 || course(
            w0,
            w1,
            start,
            SIM_STEPS as nat,
        ).state.time >= MATCH_DURATION,
        course(w0, w1, start, SIM_STEPS as nat).state.ships[who].shots_fired == 0,
{
    let n = SIM_STEPS as nat;
    lemma_unarmed_course(w0, w1, start, who, n);
    lemma_match_ends(w0, w1, start, n);
    lemma_course(w0, w1, start, n);
    lemma_finished_when_over(w0, w1, start, n);
}

/// A match that began fresh is over only where a ship is dead or time is
/// up.
pub proof fn lemma_finished_when_over(w0: Seq<i64>, w1: Seq<i64>, start: GameView, n: nat)
    requires
        fresh(start),
        n <= SIM_STEPS,
    ensures
        course(w0, w1, start, n).state.match_over ==> {
            ||| !course(w0, w1, start, n).state.ships[0].alive
            ||| !course(w0, w1, start, n).state.ships[1].alive
            ||| course(w0, w1, start, n).state.time >= MATCH_DURATION
        },
    decreases n,
{
    if n > 0 {
        lemma_finished_when_over(w0, w1, start, (n - 1) as nat);
        lemma_course(w0, w1, start, (n - 1) as nat);
        let c = course(w0, w1, start, (n - 1) as nat);
        if !c.state.match_over {
            lemma_end_of_match(c.state, SIM_DT as int, decided(w0, c.state, 0), decided(w1, c.state, 1));
            lemma_course(w0, w1, start, n);
            assert(c.ticks * SIM_DT + SIM_DT <= i64::MAX && (c.ticks + 1) * SIM_DT == c.ticks
                * SIM_DT + SIM_DT) by (nonlinear_arith)
                requires
                    0 <= c.ticks <= 1800,
                    SIM_DT == 20_000,
            ;
        }
    }
}

} // verus!
