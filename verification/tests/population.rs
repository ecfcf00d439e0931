use rand::rngs::StdRng;
use rand::SeedableRng;
use spaceship_duel::evolution::{
    best_of, breed, champion_of, opponent, rank, tournament_select, Population, ELITE_COUNT,
    MATCHES_PER_EVAL, MATCHES_PER_ROUND, MUTATION_STRENGTH, POPULATION_SIZE,
};
use spaceship_duel::fixed::ONE;
use spaceship_duel::genome::{Genome, GENOME_SIZE, WEIGHT_LIMIT};
use spaceship_duel::simulation::{MatchResult, DEATH_PENALTY, FITNESS_MAX};

fn marked(mark: i64, fitness: i64) -> Genome {
    Genome { weights: vec![mark; GENOME_SIZE], fitness }
}

fn marked_population(fitness: impl Fn(usize) -> i64) -> Population {
    Population {
        genomes: (0..POPULATION_SIZE).map(|i| marked(i as i64 * 1000, fitness(i))).collect(),
        generation: 3,
        best_fitness: 42,
    }
}

#[test]
fn round_has_eight_matches_for_each_pilot() {
    assert_eq!(MATCHES_PER_ROUND, POPULATION_SIZE * MATCHES_PER_EVAL);
}

#[test]
fn new_population_is_full_and_unscored() {
    let mut rng = StdRng::seed_from_u64(1);
    let population = Population::new(&mut rng);
    assert_eq!(population.genomes.len(), POPULATION_SIZE);
    assert_eq!(population.generation, 0);
    assert_eq!(population.best_fitness, 0);
    for g in population.genomes.iter() {
        assert_eq!(g.weights.len(), GENOME_SIZE);
        assert_eq!(g.fitness, 0);
        assert!(g.weights.iter().all(|&w| -ONE <= w && w < ONE));
    }
    assert_ne!(population.genomes[0].weights, population.genomes[1].weights);
}

#[test]
fn rank_lists_the_fittest_first() {
    let genomes = vec![marked(0, 5), marked(1, 9), marked(2, -3), marked(3, 7)];
    assert_eq!(rank(&genomes), vec![1, 3, 0, 2]);
    assert_eq!(rank(&Vec::new()), Vec::<usize>::new());
    assert_eq!(rank(&vec![marked(0, 1)]), vec![0]);
}

#[test]
fn rank_keeps_equals_in_their_order() {
    let genomes = vec![marked(0, 5), marked(1, 9), marked(2, 5), marked(3, 9), marked(4, 5)];
    assert_eq!(rank(&genomes), vec![1, 3, 0, 2, 4]);
    let flat: Vec<Genome> = (0..10).map(|i| marked(i, 0)).collect();
    assert_eq!(rank(&flat), (0..10).collect::<Vec<usize>>());
}

#[test]
fn champion_is_the_fittest_of_the_picks() {
    let genomes = vec![marked(0, 5), marked(1, 9), marked(2, -3), marked(3, 9)];
    assert_eq!(champion_of(&genomes, &[0, 2, 2, 0, 2]), 0);
    assert_eq!(champion_of(&genomes, &[2, 0, 1, 3, 0]), 1);
    assert_eq!(champion_of(&genomes, &[3, 1, 1, 3, 0]), 3);
    assert_eq!(champion_of(&genomes, &[2, 2, 2, 2, 2]), 2);
}

#[test]
fn tournament_picks_from_the_whole_population() {
    let population = marked_population(|i| i as i64);
    let mut rng = StdRng::seed_from_u64(2);
    let mut seen = vec![false; POPULATION_SIZE];
    for _ in 0..2000 {
        let winner = tournament_select(&population.genomes, &mut rng);
        assert!(winner < POPULATION_SIZE);
        seen[winner] = true;
    }
    assert!(seen[POPULATION_SIZE - 1]);
    assert!(seen.iter().filter(|&&s| s).count() > 50);
    let lone = vec![marked(0, 0)];
    assert_eq!(tournament_select(&lone, &mut rng), 0);
}

#[test]
fn tournament_favours_the_fit() {
    let population = marked_population(|i| i as i64);
    let mut rng = StdRng::seed_from_u64(3);
    let mut sum = 0;
    for _ in 0..1000 {
        sum += tournament_select(&population.genomes, &mut rng);
    }
    assert!(sum > 75 * 1000);
}

#[test]
fn opponent_is_never_the_pilot_itself() {
    for pilot in 0..POPULATION_SIZE {
        let mut met = vec![false; POPULATION_SIZE];
        for draw in 0..POPULATION_SIZE - 1 {
            let other = opponent(pilot, draw);
            assert_ne!(other, pilot);
            assert!(other < POPULATION_SIZE);
            assert!(!met[other]);
            met[other] = true;
        }
    }
    assert_eq!(opponent(0, 0), 1);
    assert_eq!(opponent(5, 4), 4);
    assert_eq!(opponent(5, 5), 6);
    assert_eq!(opponent(99, 98), 98);
}

#[test]
fn best_of_finds_the_maximum() {
    assert_eq!(best_of(&vec![marked(0, 5), marked(1, 9), marked(2, -3)]), 9);
    assert_eq!(best_of(&vec![marked(0, -5), marked(1, -9)]), -5);
    assert_eq!(best_of(&vec![marked(0, 0)]), 0);
}

#[test]
fn record_adds_to_both_pilots() {
    let mut population = marked_population(|i| i as i64);
    population.record(3, 7, &MatchResult { fitness: [100, -20] });
    assert_eq!(population.genomes[3].fitness, 103);
    assert_eq!(population.genomes[7].fitness, -13);
    assert_eq!(population.genomes[4].fitness, 4);
    assert_eq!(population.genomes[3].weights, vec![3000; GENOME_SIZE]);
    assert_eq!((population.generation, population.best_fitness), (3, 42));
}

#[test]
fn breed_makes_a_mutated_child_of_its_parents() {
    let a = marked(ONE, 50);
    let b = marked(-ONE, 60);
    let mut rng = StdRng::seed_from_u64(4);
    let mut crossed = 0;
    let mut changed = 0;
    for _ in 0..100 {
        let child = breed(&a, &b, &mut rng);
        assert_eq!(child.weights.len(), GENOME_SIZE);
        assert_eq!(child.fitness, 0);
        let mut from_b = false;
        for (k, &w) in child.weights.iter().enumerate() {
            let near_a = (w - ONE).abs() <= MUTATION_STRENGTH;
            let near_b = (w + ONE).abs() <= MUTATION_STRENGTH;
            assert!(near_a || near_b, "weight {} is {}", k, w);
            assert!(!from_b || near_b);
            from_b = near_b;
            if w != ONE && w != -ONE {
                changed += 1;
            }
        }
        assert!((child.weights[0] - ONE).abs() <= MUTATION_STRENGTH || from_b);
        if from_b {
            crossed += 1;
        }
    }
    assert!(50 < crossed && crossed < 90);
    assert!(100 * GENOME_SIZE / 10 < changed && changed < 100 * GENOME_SIZE / 5);
}

#[test]
fn evolve_keeps_the_size_and_the_elite() {
    let mut population = marked_population(|i| ((i * 37) % POPULATION_SIZE) as i64);
    let by_fitness = |f: usize| (0..POPULATION_SIZE).find(|&i| (i * 37) % POPULATION_SIZE == f).unwrap();
    let mut rng = StdRng::seed_from_u64(5);
    population.evolve(&mut rng);
    assert_eq!(population.genomes.len(), POPULATION_SIZE);
    assert_eq!(population.generation, 4);
    assert_eq!(population.best_fitness, 42);
    for e in 0..ELITE_COUNT {
        let parent = by_fitness(POPULATION_SIZE - 1 - e);
        assert_eq!(population.genomes[e].weights, vec![parent as i64 * 1000; GENOME_SIZE]);
    }
    for g in population.genomes.iter() {
        assert_eq!(g.fitness, 0);
        assert_eq!(g.weights.len(), GENOME_SIZE);
        assert!(g.weights.iter().all(|&w| -WEIGHT_LIMIT <= w && w <= WEIGHT_LIMIT));
    }
    let bred = &population.genomes[ELITE_COUNT..];
    assert!(bred.iter().any(|g| g.weights.iter().any(|&w| w % 1000 != 0)));
    for g in bred {
        for &w in g.weights.iter() {
            let parent = (w + MUTATION_STRENGTH) / 1000;
            assert!(parent * 1000 - w <= MUTATION_STRENGTH || w == WEIGHT_LIMIT);
        }
    }
}

#[test]
fn evolve_breaks_ties_by_position() {
    let mut population = marked_population(|i| if i % 10 == 0 { 7 } else { 0 });
    let mut rng = StdRng::seed_from_u64(6);
    population.evolve(&mut rng);
    for e in 0..ELITE_COUNT {
        assert_eq!(population.genomes[e].weights, vec![e as i64 * 10_000; GENOME_SIZE]);
    }
    for _ in 0..3 {
        population.evolve(&mut rng);
        assert_eq!(population.genomes.len(), POPULATION_SIZE);
    }
    assert_eq!(population.generation, 7);
    for e in 0..ELITE_COUNT {
        assert_eq!(population.genomes[e].weights, vec![e as i64 * 10_000; GENOME_SIZE]);
    }
}

#[test]
fn top_two_are_the_two_fittest() {
    let population = marked_population(|i| ((i * 37) % POPULATION_SIZE) as i64);
    let (first, second) = population.get_top_two();
    assert_eq!(first.fitness, 99);
    assert_eq!(second.fitness, 98);
    assert_eq!(first.weights, vec![27 * 1000; GENOME_SIZE]);
    assert_eq!(second.weights, vec![54 * 1000; GENOME_SIZE]);
    assert_eq!(population.genomes.len(), POPULATION_SIZE);
    assert_eq!(population.genomes[27].fitness, 99);
    let flat = marked_population(|_| 0);
    let (first, second) = flat.get_top_two();
    assert_eq!(first.weights, vec![0; GENOME_SIZE]);
    assert_eq!(second.weights, vec![1000; GENOME_SIZE]);
}

#[test]
fn evaluate_scores_every_pilot() {
    let mut rng = StdRng::seed_from_u64(7);
    let mut population = Population::new(&mut rng);
    let weights: Vec<Vec<i64>> = population.genomes.iter().map(|g| g.weights.clone()).collect();
    for g in population.genomes.iter_mut() {
        g.fitness = 1_000_000 * ONE;
    }
    population.evaluate(&mut rng);
    assert_eq!(population.genomes.len(), POPULATION_SIZE);
    assert_eq!(population.generation, 0);
    let mut best = i64::MIN;
    for (g, w) in population.genomes.iter().zip(weights.iter()) {
        assert_eq!(&g.weights, w);
        assert!(g.fitness >= -(MATCHES_PER_ROUND as i64) * DEATH_PENALTY);
        assert!(g.fitness <= MATCHES_PER_ROUND as i64 * FITNESS_MAX);
        assert!(g.fitness < 1_000_000 * ONE);
        assert_ne!(g.fitness, 0);
        best = best.max(g.fitness);
    }
    assert_eq!(population.best_fitness, best);
    assert!(population.genomes.iter().any(|g| g.fitness != population.genomes[0].fitness));
}

#[test]
fn generations_repeat_with_the_seed() {
    let run = |seed: u64| {
        let mut rng = StdRng::seed_from_u64(seed);
        let mut population = Population::new(&mut rng);
        population.evaluate(&mut rng);
        population.evolve(&mut rng);
        population
    };
    let a = run(8);
    let b = run(8);
    assert_eq!(a.best_fitness, b.best_fitness);
    assert_eq!(a.generation, 1);
    for (x, y) in a.genomes.iter().zip(b.genomes.iter()) {
        assert_eq!(x.weights, y.weights);
    }
}

#[test]
fn generation_counter_stops_at_its_largest_number() {
    let mut population = marked_population(|i| i as i64);
    population.generation = usize::MAX - 1;
    let mut rng = StdRng::seed_from_u64(9);
    population.evolve(&mut rng);
    assert_eq!(population.generation, usize::MAX);
    population.evolve(&mut rng);
    assert_eq!(population.generation, usize::MAX);
    assert_eq!(population.genomes.len(), POPULATION_SIZE);
    assert_eq!(population.genomes[0].weights, vec![99_000; GENOME_SIZE]);
}
