use rand::rngs::StdRng;
use rand::SeedableRng;
use spaceship_duel::evolution::{Population, POPULATION_SIZE};
use spaceship_duel::fixed::ONE;
use spaceship_duel::game::{
    GameState, Projectile, Ship, ARENA_HEIGHT, ARENA_WIDTH, FIRE_COOLDOWN,
    MAX_PROJECTILES_PER_SHIP, PROJECTILE_LIFETIME, PROJECTILE_VELOCITY_LIMIT, SHIP_VELOCITY_LIMIT,
};
use spaceship_duel::genome::{Genome, GENOME_SIZE, WEIGHT_LIMIT};
use spaceship_duel::simulation::tick;
use spaceship_duel::trig::FULL_TURN;

fn shot(owner: usize) -> Projectile {
    Projectile { x: ONE, y: ONE, vx: 0, vy: 0, lifetime: PROJECTILE_LIFETIME, owner }
}

#[test]
fn valid_ship_and_its_limits() {
    let ship = Ship::new(ONE, ONE, 0);
    assert!(ship.is_valid());
    assert!(Ship { x: ARENA_WIDTH - 1, y: ARENA_HEIGHT - 1, ..ship }.is_valid());
    assert!(!Ship { x: ARENA_WIDTH, ..ship }.is_valid());
    assert!(!Ship { x: -1, ..ship }.is_valid());
    assert!(!Ship { y: ARENA_HEIGHT, ..ship }.is_valid());
    assert!(!Ship { y: -1, ..ship }.is_valid());
    assert!(Ship { vx: SHIP_VELOCITY_LIMIT, vy: -SHIP_VELOCITY_LIMIT, ..ship }.is_valid());
    assert!(!Ship { vx: SHIP_VELOCITY_LIMIT + 1, ..ship }.is_valid());
    assert!(!Ship { vy: -SHIP_VELOCITY_LIMIT - 1, ..ship }.is_valid());
    assert!(Ship { rotation: FULL_TURN - 1, ..ship }.is_valid());
    assert!(!Ship { rotation: FULL_TURN, ..ship }.is_valid());
    assert!(!Ship { rotation: -1, ..ship }.is_valid());
    assert!(Ship { fire_cooldown: FIRE_COOLDOWN, ..ship }.is_valid());
    assert!(!Ship { fire_cooldown: FIRE_COOLDOWN + 1, ..ship }.is_valid());
    assert!(!Ship { fire_cooldown: -1, ..ship }.is_valid());
    assert!(Ship { alive: false, shots_fired: 9, hits_scored: 9, ..ship }.is_valid());
}

#[test]
fn valid_projectile_and_its_limits() {
    let p = shot(0);
    assert!(p.is_valid());
    assert!(shot(1).is_valid());
    assert!(!shot(2).is_valid());
    assert!(!Projectile { x: ARENA_WIDTH, ..p }.is_valid());
    assert!(!Projectile { y: -1, ..p }.is_valid());
    assert!(Projectile { vx: PROJECTILE_VELOCITY_LIMIT, ..p }.is_valid());
    assert!(!Projectile { vx: PROJECTILE_VELOCITY_LIMIT + 1, ..p }.is_valid());
    assert!(!Projectile { vy: -PROJECTILE_VELOCITY_LIMIT - 1, ..p }.is_valid());
    assert!(Projectile { lifetime: 1, ..p }.is_valid());
    assert!(!Projectile { lifetime: 0, ..p }.is_valid());
    assert!(!Projectile { lifetime: PROJECTILE_LIFETIME + 1, ..p }.is_valid());
}

#[test]
fn valid_match_and_its_limits() {
    let state = GameState::new();
    assert!(state.is_valid());
    let mut s = state.clone();
    s.ships[1].x = -5;
    assert!(!s.is_valid());
    let mut s = state.clone();
    s.time = -1;
    assert!(!s.is_valid());
    let mut s = state.clone();
    s.projectiles.push(shot(2));
    assert!(!s.is_valid());
    let mut s = state.clone();
    for _ in 0..MAX_PROJECTILES_PER_SHIP {
        s.projectiles.push(shot(1));
        s.projectiles.push(shot(0));
    }
    assert!(s.is_valid());
    s.projectiles.push(shot(1));
    assert!(!s.is_valid());
}

#[test]
fn winner_must_be_the_sole_survivor() {
    let state = GameState::new();
    let mut s = state.clone();
    s.winner = Some(0);
    assert!(!s.is_valid());
    s.match_over = true;
    assert!(!s.is_valid());
    s.ships[1].alive = false;
    assert!(s.is_valid());
    s.winner = Some(1);
    assert!(!s.is_valid());
    s.winner = Some(2);
    assert!(!s.is_valid());
    s.winner = None;
    assert!(s.is_valid());
    s.ships[0].alive = false;
    assert!(s.is_valid());
    s.winner = Some(0);
    assert!(!s.is_valid());
}

#[test]
fn matches_stay_valid_while_they_are_played() {
    let mut rng = StdRng::seed_from_u64(71);
    for _ in 0..3 {
        let a = Genome::random(&mut rng);
        let b = Genome::random(&mut rng);
        let mut state = GameState::new_random(&mut rng);
        assert!(state.is_valid());
        let mut steps = 0;
        while !state.match_over {
            tick(&a, &b, &mut state);
            steps += 1;
            assert!(state.is_valid());
            assert!(steps <= 1800);
        }
        if state.time < 30 * ONE {
            assert!(!state.ships[0].alive || !state.ships[1].alive);
        } else {
            assert_eq!(steps, 1800);
        }
        match state.winner {
            Some(w) => assert!(state.ships[w].alive && !state.ships[1 - w].alive),
            None => assert_eq!(state.ships[0].alive, state.ships[1].alive),
        }
    }
}

#[test]
fn valid_genome_and_its_limits() {
    let g = Genome { weights: vec![0; GENOME_SIZE], fitness: -7 };
    assert!(g.is_valid());
    assert!(!Genome { weights: vec![0; GENOME_SIZE - 1], fitness: 0 }.is_valid());
    assert!(!Genome { weights: vec![0; GENOME_SIZE + 1], fitness: 0 }.is_valid());
    assert!(!Genome { weights: Vec::new(), fitness: 0 }.is_valid());
    let mut h = Genome { weights: vec![WEIGHT_LIMIT; GENOME_SIZE], fitness: 0 };
    assert!(h.is_valid());
    h.weights[GENOME_SIZE - 1] = WEIGHT_LIMIT + 1;
    assert!(!h.is_valid());
    h.weights[GENOME_SIZE - 1] = -WEIGHT_LIMIT;
    assert!(h.is_valid());
    h.weights[0] = -WEIGHT_LIMIT - 1;
    assert!(!h.is_valid());
}

#[test]
fn valid_population_and_its_limits() {
    let mut rng = StdRng::seed_from_u64(72);
    let mut population = Population::new(&mut rng);
    assert!(population.is_valid());
    population.evolve(&mut rng);
    assert!(population.is_valid());
    let spare = population.genomes.pop().unwrap();
    assert_eq!(population.genomes.len(), POPULATION_SIZE - 1);
    assert!(!population.is_valid());
    population.genomes.push(spare);
    assert!(population.is_valid());
    population.genomes[50].weights[7] = WEIGHT_LIMIT + 1;
    assert!(!population.is_valid());
    population.genomes[50].weights[7] = 0;
    population.genomes[99].weights.pop();
    assert!(!population.is_valid());
}
