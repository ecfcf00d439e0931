//! The population of pilots and the genetic algorithm that improves it:
//! every generation plays a round of matches, the best pilots are carried
//! over as they are, and the rest is bred from the winners of small
//! tournaments.

use vstd::prelude::*;
use crate::chance::{below, between};
use crate::fixed::ONE;
use crate::genome::{GENOME_SIZE, Genome, mutation_of, small_weights, spliced};
use crate::simulation::{DEATH_PENALTY, FITNESS_MAX, MatchResult, earned, run_match};
use rand::rngs::StdRng;

verus! {

pub const POPULATION_SIZE: usize = 100;

/// The number of matches that each pilot starts in a round.
pub const MATCHES_PER_EVAL: usize = 8;

/// The number of pilots that are drawn for a tournament.
pub const TOURNAMENT_SIZE: usize = 5;

/// The number of pilots that are carried over unchanged.
pub const ELITE_COUNT: usize = 5;

/// The probability with which a weight of a child mutates: 0.15.
pub const MUTATION_RATE: i64 = 180_000;

/// The most by which a weight mutates: 0.4.
pub const MUTATION_STRENGTH: i64 = 480_000;

/// The probability with which a child has two parents: 0.7.
pub const CROSSOVER_RATE: i64 = 840_000;

/// The number of matches of a round.
pub const MATCHES_PER_ROUND: usize = 800;

pub struct Population {
    pub genomes: Vec<Genome>,
    pub generation: usize,
    pub best_fitness: i64,
}

/// Whether pilot `i` ranks before pilot `j`: it is fitter, or as fit and
/// earlier in the population.
pub open spec fn outranks(genomes: Seq<Genome>, i: int, j: int) -> bool {
    genomes[i].fitness > genomes[j].fitness || (genomes[i].fitness == genomes[j].fitness && i < j)
}

/// Whether `order` lists the first `n` pilots by rank: it holds `n` of
/// their indices, and each of them ranks before all that follow it. (So it
/// holds every one of them once.)
pub open spec fn ranks(genomes: Seq<Genome>, order: Seq<usize>, n: int) -> bool {
    &&& order.len() == n
    &&& forall|a: int| 0 <= a < n ==> (#[trigger] order[a]) < n
    &&& forall|a: int, b: int|
        0 <= a < b < n ==> outranks(genomes, #[trigger] order[a] as int, #[trigger] order[b] as int)
}

/// Whether all of the genomes are well-formed.
pub open spec fn all_genomes_wf(genomes: Seq<Genome>) -> bool {
    forall|i: int| 0 <= i < genomes.len() ==> (#[trigger] genomes[i]).wf()
}

impl Population {
    /// The population has its full size, and every genome in it is
    /// well-formed.
    pub open spec fn wf(&self) -> bool {
        &&& self.genomes@.len() == POPULATION_SIZE
        &&& all_genomes_wf(self.genomes@)
    }
}

/// Lists the pilots by rank, the fittest first, pilots of equal fitness in
/// the order in which they stand.
pub fn rank(genomes: &Vec<Genome>) -> (order: Vec<usize>)
    ensures
        ranks(genomes@, order@, genomes@.len() as int),
{
    let mut order: Vec<usize> = Vec::new();
    let mut k: usize = 0;
    while k < genomes.len()
        invariant
            k <= genomes@.len(),
            ranks(genomes@, order@, k as int),
        decreases genomes@.len() - k,
    {
        let mut p: usize = 0;
        while p < order.len() && genomes[order[p]].fitness >= genomes[k].fitness
            invariant
                p <= order@.len(),
                k < genomes@.len(),
                ranks(genomes@, order@, k as int),
                forall|a: int|
                    0 <= a < p ==> genomes@[(#[trigger] order@[a]) as int].fitness
                        >= genomes@[k as int].fitness,
            decreases order@.len() - p,
        {
            p = p + 1;
        }
        let ghost before = order@;
        order.insert(p, k);
        proof {
            let after = order@;
            assert(after.len() == k + 1);
            assert forall|a: int| 0 <= a < k + 1 implies (#[trigger] after[a]) < k + 1 by {
                if a < p {
                    assert(after[a] == before[a]);
                } else if a > p {
                    assert(after[a] == before[a - 1]);
                }
            }
            assert forall|a: int, b: int| 0 <= a < b < k + 1 implies outranks(
                genomes@,
                #[trigger] after[a] as int,
                #[trigger] after[b] as int,
            ) by {
                let x = if a < p { before[a] } else if a == p { k } else { before[a - 1] };
                let y = if b < p { before[b] } else if b == p { k } else { before[b - 1] };
                assert(after[a] == x);
                assert(after[b] == y);
                if a == p {
                    assert(outranks(genomes@, before[p as int] as int, before[b - 1] as int)
                        || b - 1 == p);
                }
            }
        }
        k = k + 1;
    }
    order
}

/// The winner of a tournament among the first `n` of the picked pilots: the
/// fittest of them, the one picked first among those as fit.
pub open spec fn champion(genomes: Seq<Genome>, picks: Seq<usize>, n: int) -> int
    decreases n,
{
    if n <= 1 {
        picks[0] as int
    } else if genomes[picks[n - 1] as int].fitness > genomes[champion(genomes, picks, n - 1)].fitness {
        picks[n - 1] as int
    } else {
        champion(genomes, picks, n - 1)
    }
}

/// The opponent that a draw below the number of the others stands for:
/// the draws from the pilot's own index on stand for the pilot after.
pub open spec fn opponent_of(pilot: int, draw: int) -> int {
    if draw >= pilot {
        draw + 1
    } else {
        draw
    }
}

/// Whether `child` can have been bred from the weights `a` and `b` cut at
/// `point`: each of its weights has come, by its chance to mutate, of the
/// weight of `a` if it lies before the cut and of the weight of `b` if not.
/// A cut behind the last weight makes a child of `a` alone.
pub open spec fn bred(child: Seq<i64>, a: Seq<i64>, b: Seq<i64>, point: int) -> bool {
    &&& 0 <= point <= GENOME_SIZE
    &&& child.len() == GENOME_SIZE
    &&& forall|k: int|
        0 <= k < GENOME_SIZE ==> mutation_of(
            spliced(a, b, point)[k] as int,
            #[trigger] child[k] as int,
            MUTATION_RATE as int,
            MUTATION_STRENGTH as int,
        )
}

/// Whether `child` can have been bred from two of the `parents`.
pub open spec fn offspring(parents: Seq<Genome>, child: Seq<i64>) -> bool {
    exists|i: int, j: int, point: int|
        0 <= i < parents.len() && 0 <= j < parents.len() && #[trigger] bred(
            child,
            parents[i].weights@,
            parents[j].weights@,
            point,
        )
}

/// Whether `best` is the fitness of the fittest of the genomes.
pub open spec fn is_best(genomes: Seq<Genome>, best: int) -> bool {
    &&& forall|i: int| 0 <= i < genomes.len() ==> (#[trigger] genomes[i]).fitness <= best
    &&& exists|i: int| 0 <= i < genomes.len() && (#[trigger] genomes[i]).fitness == best
}

/// No tournament is won by a pilot that was not picked.
pub proof fn lemma_champion(genomes: Seq<Genome>, picks: Seq<usize>, n: int)
    requires
        1 <= n <= picks.len(),
    ensures
        exists|a: int| 0 <= a < n && champion(genomes, picks, n) == #[trigger] picks[a],
        forall|a: int|
            0 <= a < n ==> genomes[(#[trigger] picks[a]) as int].fitness <= genomes[champion(
                genomes,
                picks,
                n,
            )].fitness,
    decreases n,
{
    if n > 1 {
        lemma_champion(genomes, picks, n - 1);
        let a = choose|a: int| 0 <= a < n - 1 && champion(genomes, picks, n - 1) == picks[a];
        assert(picks[a] == champion(genomes, picks, n - 1));
        assert(picks[n - 1] == picks[n - 1]);
    } else {
        assert(picks[0] == champion(genomes, picks, n));
    }
}

/// A pilot never meets itself: the opponent that a draw stands for is
/// another pilot of the population.
pub proof fn lemma_opponent(pilot: int, draw: int)
    requires
        0 <= pilot < POPULATION_SIZE,
        0 <= draw < POPULATION_SIZE - 1,
    ensures
        opponent_of(pilot, draw) != pilot,
        0 <= opponent_of(pilot, draw) < POPULATION_SIZE,
{
}

/// Finds the winner of a tournament among the picked pilots.
pub fn champion_of(genomes: &Vec<Genome>, picks: &[usize; 5]) -> (best: usize)
    requires
        forall|a: int| 0 <= a < 5 ==> (#[trigger] picks[a]) < genomes@.len(),
    ensures
        best == champion(genomes@, picks@, TOURNAMENT_SIZE as int),
        best < genomes@.len(),
{
    let mut best: usize = picks[0];
    let mut n: usize = 1;
    while n < TOURNAMENT_SIZE
        invariant
            1 <= n <= TOURNAMENT_SIZE,
            forall|a: int| 0 <= a < 5 ==> (#[trigger] picks[a]) < genomes@.len(),
            best == champion(genomes@, picks@, n as int),
            best < genomes@.len(),
        decreases TOURNAMENT_SIZE - n,
    {
        let candidate: usize = picks[n];
        if genomes[candidate].fitness > genomes[best].fitness {
            best = candidate;
        }
        n = n + 1;
    }
    best
}

/// Picks pilots at random, as many as a tournament has, and returns the
/// index of the winner.
pub fn tournament_select(genomes: &Vec<Genome>, rng: &mut StdRng) -> (best: usize)
    requires
        genomes@.len() > 0,
    ensures
        best < genomes@.len(),
        exists|picks: Seq<usize>|
            {
                &&& picks.len() == TOURNAMENT_SIZE
                &&& forall|a: int| 0 <= a < picks.len() ==> (#[trigger] picks[a]) < genomes@.len()
                &&& best == #[trigger] champion(genomes@, picks, TOURNAMENT_SIZE as int)
            },
{
    let mut picks: [usize; 5] = [0usize; 5];
    let mut n: usize = 0;
    while n < TOURNAMENT_SIZE
        invariant
            n <= TOURNAMENT_SIZE,
            genomes@.len() > 0,
            forall|a: int| 0 <= a < n ==> (#[trigger] picks[a]) < genomes@.len(),
        decreases TOURNAMENT_SIZE - n,
    {
        let pick: usize = below(rng, genomes.len());
        picks[n] = pick;
        n = n + 1;
    }
    champion_of(genomes, &picks)
}

/// The opponent that a draw below the number of the others stands for.
pub fn opponent(pilot: usize, draw: usize) -> (other: usize)
    requires
        pilot < POPULATION_SIZE,
        draw < POPULATION_SIZE - 1,
    ensures
        other == opponent_of(pilot as int, draw as int),
        other != pilot,
        other < POPULATION_SIZE,
{
    if draw >= pilot {
        draw + 1
    } else {
        draw
    }
}

/// Breeds a child of two parents: with the probability `CROSSOVER_RATE` it
/// is cut from both, else it is a copy of the first; then it mutates.
pub fn breed(a: &Genome, b: &Genome, rng: &mut StdRng) -> (child: Genome)
    requires
        a.wf(),
        b.wf(),
    ensures
        child.wf(),
        child.fitness == 0,
        exists|point: int| #[trigger] bred(child.weights@, a.weights@, b.weights@, point),
{
    let roll: i64 = between(rng, 0, ONE - 1);
    let mut child: Genome = if roll < CROSSOVER_RATE {
        Genome::crossover(a, b, rng)
    } else {
        a.duplicate()
    };
    let ghost point: int = if roll < CROSSOVER_RATE {
        choose|point: int|
            0 <= point < GENOME_SIZE && child.weights@ == spliced(a.weights@, b.weights@, point)
    } else {
        GENOME_SIZE as int
    };
    proof {
        assert(child.weights@ =~= spliced(a.weights@, b.weights@, point));
    }
    child.fitness = 0;
    child.mutate(MUTATION_RATE, MUTATION_STRENGTH, rng);
    proof {
        assert(bred(child.weights@, a.weights@, b.weights@, point));
    }
    child
}

/// A match of a round: who flew the first ship, who flew the second, and
/// what the two of them earned.
pub struct Played {
    pub first: int,
    pub second: int,
    pub result: Seq<i64>,
}

/// What pilot `p` earned by the match `m`.
pub open spec fn gain(m: Played, p: int) -> int {
    (if m.first == p {
        m.result[0] as int
    } else {
        0
    }) + (if m.second == p {
        m.result[1] as int
    } else {
        0
    })
}

/// What pilot `p` earned by all the matches of `log`.
pub open spec fn tally(log: Seq<Played>, p: int) -> int
    decreases log.len(),
{
    if log.len() == 0 {
        0
    } else {
        tally(log.drop_last(), p) + gain(log.last(), p)
    }
}

/// Whether `m` can be a match that the pilot `starter` has started: it flew
/// the first ship against another pilot of the population, and the result
/// is what the two can earn by a match.
pub open spec fn fair_match(genomes: Seq<Genome>, m: Played, starter: int) -> bool {
    &&& m.first == starter
    &&& 0 <= m.second < genomes.len()
    &&& m.second != m.first
    &&& earned(genomes[m.first].weights@, genomes[m.second].weights@, m.result)
}

/// Whether `log` can be the matches of a round: every pilot in its turn
/// has started `MATCHES_PER_EVAL` of them.
pub open spec fn round_of(genomes: Seq<Genome>, log: Seq<Played>) -> bool {
    &&& log.len() == MATCHES_PER_ROUND
    &&& forall|k: int| 0 <= k < log.len() ==> fair_match(genomes, #[trigger] log[k], k / 8)
}

/// Whether two populations hold the same weights, genome by genome.
pub open spec fn same_weights(a: Seq<Genome>, b: Seq<Genome>) -> bool {
    &&& a.len() == b.len()
    &&& forall|i: int| 0 <= i < a.len() ==> (#[trigger] a[i]).weights@ == b[i].weights@
}

/// Whether no genome has earned more than `matches` matches can yield, nor
/// lost more.
pub open spec fn fitness_within(genomes: Seq<Genome>, matches: int) -> bool {
    forall|i: int|
        0 <= i < genomes.len() ==> -matches * DEATH_PENALTY <= (#[trigger] genomes[i]).fitness
            <= matches * FITNESS_MAX
}

/// Finds the fitness of the fittest genome.
pub fn best_of(genomes: &Vec<Genome>) -> (best: i64)
    requires
        genomes@.len() > 0,
    ensures
        is_best(genomes@, best as int),
{
    let mut best: i64 = genomes[0].fitness;
    let mut i: usize = 1;
    while i < genomes.len()
        invariant
            1 <= i <= genomes@.len(),
            forall|j: int| 0 <= j < i ==> (#[trigger] genomes@[j]).fitness <= best,
            exists|j: int| 0 <= j < i && (#[trigger] genomes@[j]).fitness == best,
        decreases genomes@.len() - i,
    {
        if genomes[i].fitness > best {
            best = genomes[i].fitness;
        }
        i = i + 1;
    }
    best
}

impl Population {
    /// Makes a population of random genomes.
    pub fn new(rng: &mut StdRng) -> (population: Population)
        ensures
            population.wf(),
            population.generation == 0,
            population.best_fitness == 0,
            forall|i: int|
                0 <= i < POPULATION_SIZE ==> (#[trigger] population.genomes@[i]).fitness == 0
                    && small_weights(population.genomes@[i].weights@),
    {
        let mut genomes: Vec<Genome> = Vec::with_capacity(POPULATION_SIZE);
        let mut i: usize = 0;
        while i < POPULATION_SIZE
            invariant
                i <= POPULATION_SIZE,
                genomes@.len() == i,
                all_genomes_wf(genomes@),
                forall|j: int|
                    0 <= j < i ==> (#[trigger] genomes@[j]).fitness == 0 && small_weights(
                        genomes@[j].weights@,
                    ),
            decreases POPULATION_SIZE - i,
        {
            genomes.push(Genome::random(rng));
            i = i + 1;
        }
        Population { genomes, generation: 0, best_fitness: 0 }
    }

    /// Adds to the fitness of pilot `i` and of pilot `j` what they have
    /// earned by a match in which `i` flew the first ship.
    pub fn record(&mut self, i: usize, j: usize, result: &MatchResult)
        requires
            i < old(self).genomes@.len(),
            j < old(self).genomes@.len(),
            i != j,
            i64::MIN <= old(self).genomes@[i as int].fitness + result.fitness[0] <= i64::MAX,
            i64::MIN <= old(self).genomes@[j as int].fitness + result.fitness[1] <= i64::MAX,
        ensures
            same_weights(final(self).genomes@, old(self).genomes@),
            final(self).generation == old(self).generation,
            final(self).best_fitness == old(self).best_fitness,
            forall|k: int|
                0 <= k < old(self).genomes@.len() ==> (#[trigger] final(self).genomes@[k]).fitness
                    == old(self).genomes@[k].fitness + if k == i {
                    result.fitness[0] as int
                } else if k == j {
                    result.fitness[1] as int
                } else {
                    0int
                },
    {
        self.genomes[i].fitness += result.fitness[0];
        self.genomes[j].fitness += result.fitness[1];
    }

    /// Plays a round: every pilot starts `MATCHES_PER_EVAL` matches, each
    /// against another pilot picked at random, and the fitness of a pilot
    /// is the sum of what it earns by the matches it takes part in.
    pub fn evaluate(&mut self, rng: &mut StdRng)
        requires
            old(self).wf(),
        ensures
            final(self).wf(),
            same_weights(final(self).genomes@, old(self).genomes@),
            final(self).generation == old(self).generation,
            exists|log: Seq<Played>|
                {
                    &&& #[trigger] round_of(old(self).genomes@, log)
                    &&& forall|p: int|
                        0 <= p < POPULATION_SIZE ==> (#[trigger] final(self).genomes@[p]).fitness
                            == tally(log, p)
                },
            fitness_within(final(self).genomes@, MATCHES_PER_ROUND as int),
            is_best(final(self).genomes@, final(self).best_fitness as int),
    {
        let ghost before = self.genomes@;
        let mut r: usize = 0;
        while r < POPULATION_SIZE
            invariant
                r <= POPULATION_SIZE,
                self.wf(),
                same_weights(self.genomes@, before),
                self.generation == old(self).generation,
                forall|k: int| 0 <= k < r ==> (#[trigger] self.genomes@[k]).fitness == 0,
            decreases POPULATION_SIZE - r,
        {
            self.genomes[r].fitness = 0;
            r = r + 1;
        }
        let ghost mut log: Seq<Played> = Seq::empty();
        let mut played: usize = 0;
        let mut i: usize = 0;
        while i < POPULATION_SIZE
            invariant
                i <= POPULATION_SIZE,
                played == i * MATCHES_PER_EVAL,
                self.wf(),
                before.len() == POPULATION_SIZE,
                same_weights(self.genomes@, before),
                self.generation == old(self).generation,
                fitness_within(self.genomes@, played as int),
                log.len() == played,
                forall|k: int| 0 <= k < log.len() ==> fair_match(before, #[trigger] log[k], k / 8),
                forall|p: int|
                    0 <= p < POPULATION_SIZE ==> (#[trigger] self.genomes@[p]).fitness == tally(
                        log,
                        p,
                    ),
            decreases POPULATION_SIZE - i,
        {
            let mut m: usize = 0;
            while m < MATCHES_PER_EVAL
                invariant
                    i < POPULATION_SIZE,
                    m <= MATCHES_PER_EVAL,
                    played == i * MATCHES_PER_EVAL + m,
                    self.wf(),
                    before.len() == POPULATION_SIZE,
                    same_weights(self.genomes@, before),
                    self.generation == old(self).generation,
                    fitness_within(self.genomes@, played as int),
                    log.len() == played,
                    forall|k: int|
                        0 <= k < log.len() ==> fair_match(before, #[trigger] log[k], k / 8),
                    forall|p: int|
                        0 <= p < POPULATION_SIZE ==> (#[trigger] self.genomes@[p]).fitness
                            == tally(log, p),
                decreases MATCHES_PER_EVAL - m,
            {
                let draw: usize = below(rng, POPULATION_SIZE - 1);
                let j: usize = opponent(i, draw);
                let result: MatchResult = run_match(&self.genomes[i], &self.genomes[j], rng);
                let ghost earlier = self.genomes@;
                let ghost this = Played { first: i as int, second: j as int, result: result.fitness@ };
                proof {
                    assert(played < MATCHES_PER_ROUND);
                    assert(-played * DEATH_PENALTY - DEATH_PENALTY == -(played + 1) * DEATH_PENALTY)
                        by (nonlinear_arith);
                    assert(played * FITNESS_MAX + FITNESS_MAX == (played + 1) * FITNESS_MAX)
                        by (nonlinear_arith);
                    assert(-800 * DEATH_PENALTY <= -played * DEATH_PENALTY) by (nonlinear_arith)
                        requires
                            0 <= played <= 800,
                            DEATH_PENALTY >= 0,
                    ;
                    assert(played * FITNESS_MAX <= 800 * FITNESS_MAX) by (nonlinear_arith)
                        requires
                            0 <= played <= 800,
                            FITNESS_MAX >= 0,
                    ;
                    assert(earlier[i as int].weights@ == before[i as int].weights@);
                    assert(earlier[j as int].weights@ == before[j as int].weights@);
                    assert(fair_match(before, this, played as int / 8));
                }
                self.record(i, j, &result);
                proof {
                    let longer = log.push(this);
                    assert(longer.drop_last() =~= log);
                    assert forall|p: int| 0 <= p < POPULATION_SIZE implies (
                    #[trigger] self.genomes@[p]).fitness == tally(longer, p) by {
                        assert(earlier[p].fitness == tally(log, p));
                    }
                    assert forall|k: int| 0 <= k < longer.len() implies fair_match(
                        before,
                        #[trigger] longer[k],
                        k / 8,
                    ) by {
                        if k < log.len() {
                            assert(longer[k] == log[k]);
                        }
                    }
                    log = longer;
                }
                played = played + 1;
                m = m + 1;
            }
            i = i + 1;
        }
        self.best_fitness = best_of(&self.genomes);
        proof {
            assert(round_of(before, log));
        }
    }
}

/// The count of generations after one more: one higher, but for the
/// largest number that the counter can hold, at which it stops.
pub open spec fn next_generation(generation: usize) -> usize {
    if generation < usize::MAX {
        (generation + 1) as usize
    } else {
        generation
    }
}

/// Whether the genome `copy` has the weights and the fitness of `source`.
pub open spec fn same_genome(copy: Genome, source: Genome) -> bool {
    copy.weights@ == source.weights@ && copy.fitness == source.fitness
}

/// Copies the genomes in the order of their rank.
fn ranked_copy(genomes: &Vec<Genome>) -> (r: (Vec<Genome>, Ghost<Seq<usize>>))
    ensures
        ranks(genomes@, r.1@, genomes@.len() as int),
        r.0@.len() == genomes@.len(),
        forall|a: int|
            0 <= a < genomes@.len() ==> same_genome(#[trigger] r.0@[a], genomes@[r.1@[a] as int]),
{
    let order: Vec<usize> = rank(genomes);
    let mut sorted: Vec<Genome> = Vec::with_capacity(genomes.len());
    let mut a: usize = 0;
    while a < order.len()
        invariant
            a <= order@.len(),
            ranks(genomes@, order@, genomes@.len() as int),
            sorted@.len() == a,
            forall|b: int|
                0 <= b < a ==> same_genome(#[trigger] sorted@[b], genomes@[order@[b] as int]),
        decreases order@.len() - a,
    {
        sorted.push(genomes[order[a]].duplicate());
        a = a + 1;
    }
    (sorted, Ghost(order@))
}

impl Population {
    /// Replaces the population by the next generation and counts it. The fittest
    /// `ELITE_COUNT` pilots are carried over with their weights as they
    /// are; every other place is taken by a child of the winners of two
    /// tournaments among all pilots. Every fitness starts at zero again.
    pub fn evolve(&mut self, rng: &mut StdRng)
        requires
            old(self).wf(),
        ensures
            final(self).wf(),
            final(self).generation == next_generation(old(self).generation),
            final(self).best_fitness == old(self).best_fitness,
            forall|i: int|
                0 <= i < POPULATION_SIZE ==> (#[trigger] final(self).genomes@[i]).fitness == 0,
            exists|order: Seq<usize>|
                {
                    &&& #[trigger] ranks(old(self).genomes@, order, POPULATION_SIZE as int)
                    &&& forall|e: int|
                        0 <= e < ELITE_COUNT ==> (#[trigger] final(self).genomes@[e]).weights@
                            == old(self).genomes@[order[e] as int].weights@
                },
            forall|c: int|
                ELITE_COUNT <= c < POPULATION_SIZE ==> offspring(
                    old(self).genomes@,
                    (#[trigger] final(self).genomes@[c]).weights@,
                ),
    {
        let ghost parents = self.genomes@;
        let (sorted, Ghost(order)) = ranked_copy(&self.genomes);
        let mut new_genomes: Vec<Genome> = Vec::with_capacity(POPULATION_SIZE);
        let mut e: usize = 0;
        while e < ELITE_COUNT
            invariant
                e <= ELITE_COUNT,
                sorted@.len() == POPULATION_SIZE,
                new_genomes@.len() == e,
                forall|a: int|
                    0 <= a < POPULATION_SIZE ==> same_genome(
                        #[trigger] sorted@[a],
                        parents[order[a] as int],
                    ),
                forall|a: int|
                    0 <= a < e ==> (#[trigger] new_genomes@[a]).weights@ == sorted@[a].weights@
                        && new_genomes@[a].fitness == 0,
            decreases ELITE_COUNT - e,
        {
            let mut elite: Genome = sorted[e].duplicate();
            elite.fitness = 0;
            new_genomes.push(elite);
            e = e + 1;
        }
        proof {
            assert forall|a: int| 0 <= a < POPULATION_SIZE implies (#[trigger] sorted@[a]).wf() by {
                assert(same_genome(sorted@[a], parents[order[a] as int]));
                assert(parents[order[a] as int].wf());
            }
        }
        while new_genomes.len() < POPULATION_SIZE
            invariant
                ELITE_COUNT <= new_genomes@.len() <= POPULATION_SIZE,
                parents.len() == POPULATION_SIZE,
                ranks(parents, order, POPULATION_SIZE as int),
                sorted@.len() == POPULATION_SIZE,
                all_genomes_wf(sorted@),
                forall|a: int|
                    0 <= a < POPULATION_SIZE ==> same_genome(
                        #[trigger] sorted@[a],
                        parents[order[a] as int],
                    ),
                forall|a: int|
                    0 <= a < ELITE_COUNT ==> (#[trigger] new_genomes@[a]).weights@
                        == sorted@[a].weights@,
                forall|a: int| 0 <= a < new_genomes@.len() ==> (#[trigger] new_genomes@[a]).fitness == 0,
                forall|c: int|
                    ELITE_COUNT <= c < new_genomes@.len() ==> offspring(
                        parents,
                        (#[trigger] new_genomes@[c]).weights@,
                    ) && new_genomes@[c].wf(),
            decreases POPULATION_SIZE - new_genomes@.len(),
        {
            let first: usize = tournament_select(&sorted, rng);
            let second: usize = tournament_select(&sorted, rng);
            let child: Genome = breed(&sorted[first], &sorted[second], rng);
            proof {
                let point = choose|point: int|
                    bred(
                        child.weights@,
                        sorted@[first as int].weights@,
                        sorted@[second as int].weights@,
                        point,
                    );
                assert(same_genome(sorted@[first as int], parents[order[first as int] as int]));
                assert(same_genome(sorted@[second as int], parents[order[second as int] as int]));
                assert(bred(
                    child.weights@,
                    parents[order[first as int] as int].weights@,
                    parents[order[second as int] as int].weights@,
                    point,
                ));
            }
            new_genomes.push(child);
        }
        proof {
            assert forall|a: int| 0 <= a < POPULATION_SIZE implies (#[trigger] new_genomes@[a]).wf() by {
                if a < ELITE_COUNT {
                    assert(new_genomes@[a].weights@ == sorted@[a].weights@);
                    assert(sorted@[a].wf());
                }
            }
            assert forall|a: int| 0 <= a < ELITE_COUNT implies (#[trigger] new_genomes@[a]).weights@
                == parents[order[a] as int].weights@ by {
                assert(same_genome(sorted@[a], parents[order[a] as int]));
            }
        }
        self.genomes = new_genomes;
        if self.generation < usize::MAX {
            self.generation += 1;
        }
    }

    /// The two fittest pilots of the population, the fittest first.
    pub fn get_top_two(&self) -> (top: (Genome, Genome))
        requires
            self.wf(),
        ensures
            exists|order: Seq<usize>|
                {
                    &&& #[trigger] ranks(self.genomes@, order, POPULATION_SIZE as int)
                    &&& same_genome(top.0, self.genomes@[order[0] as int])
                    &&& same_genome(top.1, self.genomes@[order[1] as int])
                },
    {
        let order: Vec<usize> = rank(&self.genomes);
        (self.genomes[order[0]].duplicate(), self.genomes[order[1]].duplicate())
    }
}

impl Population {
    /// Tells whether the population is well-formed, which is what a round
    /// and the breeding ask for and keep.
    pub fn is_valid(&self) -> (b: bool)
        ensures
            b == self.wf(),
    {
        if self.genomes.len() != POPULATION_SIZE {
            return false;
        }
        let mut i: usize = 0;
        while i < POPULATION_SIZE
            invariant
                i <= POPULATION_SIZE,
                self.genomes@.len() == POPULATION_SIZE,
                forall|j: int| 0 <= j < i ==> (#[trigger] self.genomes@[j]).wf(),
            decreases POPULATION_SIZE - i,
        {
            if !self.genomes[i].is_valid() {
                return false;
            }
            i = i + 1;
        }
        true
    }
}

/// A round has as many matches as every pilot starting its share makes,
/// and the rates are the hundredths that they are meant to be.
pub proof fn lemma_evolution_constants()
    ensures
        MATCHES_PER_ROUND == POPULATION_SIZE * MATCHES_PER_EVAL,
        100 * MUTATION_RATE == 15 * ONE,
        10 * MUTATION_STRENGTH == 4 * ONE,
        10 * CROSSOVER_RATE == 7 * ONE,
        ELITE_COUNT <= POPULATION_SIZE,
{
    assert(POPULATION_SIZE * MATCHES_PER_EVAL == 800) by (nonlinear_arith)
        requires
            POPULATION_SIZE == 100,
            MATCHES_PER_EVAL == 8,
    ;
}

/// A ranking of the first `n` pilots lists every one of them.
pub proof fn lemma_ranks_cover(genomes: Seq<Genome>, order: Seq<usize>, n: int, v: int)
    requires
        ranks(genomes, order, n),
        0 <= v < n,
    ensures
        exists|b: int| 0 <= b < n && #[trigger] order[b] == v,
{
    let listed = Seq::new(order.len(), |a: int| order[a] as int);
    assert forall|a: int, b: int| 0 <= a < listed.len() && 0 <= b < listed.len() && a != b implies listed[a]
        != listed[b] by {
        if a < b {
            assert(outranks(genomes, order[a] as int, order[b] as int));
        } else {
            assert(outranks(genomes, order[b] as int, order[a] as int));
        }
    }
    listed.unique_seq_to_set();
    vstd::set_lib::lemma_int_range(0, n);
    let all = vstd::set_lib::set_int_range(0, n);
    assert forall|x: int| listed.to_set().contains(x) implies all.contains(x) by {
        let a = choose|a: int| 0 <= a < listed.len() && listed[a] == x;
        assert(order[a] < n);
    }
    if !listed.to_set().contains(v) {
        listed.to_set().lemma_subset_not_in_lt(all, v);
    }
    let b = choose|b: int| 0 <= b < listed.len() && listed[b] == v;
    assert(order[b] == v);
}

/// Two rankings of the same pilots agree in every place.
proof fn lemma_ranks_agree(genomes: Seq<Genome>, one: Seq<usize>, other: Seq<usize>, n: int, a: int)
    requires
        ranks(genomes, one, n),
        ranks(genomes, other, n),
        0 <= a < n,
    ensures
        one[a] == other[a],
    decreases a,
{
    assert forall|c: int| 0 <= c < a implies one[c] == other[c] by {
        lemma_ranks_agree(genomes, one, other, n, c);
    }
    let x = one[a];
    let y = other[a];
    if x != y {
        lemma_ranks_cover(genomes, other, n, x as int);
        let b = choose|b: int| 0 <= b < n && other[b] == x;
        if b < a {
            assert(outranks(genomes, one[b] as int, one[a] as int));
        }
        assert(outranks(genomes, other[a] as int, other[b] as int));
        lemma_ranks_cover(genomes, one, n, y as int);
        let c = choose|c: int| 0 <= c < n && one[c] == y;
        if c < a {
            assert(outranks(genomes, other[c] as int, other[a] as int));
        }
        assert(outranks(genomes, one[a] as int, one[c] as int));
    }
}

/// There is only one ranking: the fittest pilots, and so the elite and the
/// two best, are settled by the fitness and the places of the pilots.
pub proof fn lemma_ranks_unique(genomes: Seq<Genome>, one: Seq<usize>, other: Seq<usize>, n: int)
    requires
        ranks(genomes, one, n),
        ranks(genomes, other, n),
    ensures
        one == other,
{
    assert forall|a: int| 0 <= a < n implies one[a] == other[a] by {
        lemma_ranks_agree(genomes, one, other, n, a);
    }
    assert(one =~= other);
}

/// In a ranking no pilot comes before a fitter one.
pub proof fn lemma_ranks_by_fitness(genomes: Seq<Genome>, order: Seq<usize>, n: int, a: int, b: int)
    requires
        ranks(genomes, order, n),
        0 <= a <= b < n,
    ensures
        genomes[order[a] as int].fitness >= genomes[order[b] as int].fitness,
{
    if a < b {
        assert(outranks(genomes, order[a] as int, order[b] as int));
    }
}

} // verus!
