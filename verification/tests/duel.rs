use rand::rngs::StdRng;
use rand::SeedableRng;
use spaceship_duel::fixed::ONE;
use spaceship_duel::game::{GameState, MATCH_DURATION, MAX_SHIP_SPEED};
use spaceship_duel::genome::{Genome, GENOME_SIZE};
use spaceship_duel::simulation::{
    fitness, play, run_match, tick, DEATH_PENALTY, FITNESS_MAX, SIM_DT, SIM_STEPS,
};

fn with_output_biases(thrust: i64, left: i64, right: i64, fire: i64) -> Genome {
    let mut g = Genome { weights: vec![0; GENOME_SIZE], fitness: 0 };
    g.weights[300 + 20] = thrust;
    g.weights[300 + 21 + 20] = left;
    g.weights[300 + 2 * 21 + 20] = right;
    g.weights[300 + 3 * 21 + 20] = fire;
    g
}

fn zero() -> Genome {
    Genome { weights: vec![0; GENOME_SIZE], fitness: 0 }
}

#[test]
fn step_constants_fit_the_match_duration() {
    assert_eq!(SIM_DT * 60, ONE);
    assert_eq!(SIM_DT * SIM_STEPS as i64, MATCH_DURATION);
}

#[test]
fn fitness_of_a_winner() {
    let mut state = GameState::new();
    state.ships[1].alive = false;
    state.ships[0].hits_scored = 1;
    state.ships[0].shots_fired = 4;
    state.ships[1].shots_fired = 30;
    state.time = 900 * SIM_DT;
    state.match_over = true;
    state.winner = Some(0);
    let closeness = 900 * (ONE / 2);
    assert_eq!(fitness(&state, 0, closeness, 900), 177 * ONE);
    assert_eq!(fitness(&state, 1, closeness, 900), (-20 + 10 + 10) * ONE + 5 * ONE / 2);
}

#[test]
fn fitness_of_a_draw() {
    let mut state = GameState::new();
    state.time = MATCH_DURATION;
    state.match_over = true;
    state.ships[0].shots_fired = 3;
    assert_eq!(fitness(&state, 0, 0, 1800), 15 * ONE + 3 * ONE / 2);
    assert_eq!(fitness(&state, 1, 0, 1800), 15 * ONE);
    assert_eq!(fitness(&state, 1, 1800 * ONE, 1800), 35 * ONE);
    let fresh = GameState::new();
    assert_eq!(fitness(&fresh, 0, 0, 0), 0);
}

#[test]
fn fitness_of_a_double_kill() {
    let mut state = GameState::new();
    for ship in state.ships.iter_mut() {
        ship.alive = false;
        ship.hits_scored = 1;
        ship.shots_fired = 1;
    }
    state.time = 600 * SIM_DT;
    state.match_over = true;
    let expected = (-20 + 50 + 30) * ONE + ONE / 2 + 5 * ONE / 3;
    assert_eq!(fitness(&state, 0, 0, 600), expected);
    assert_eq!(fitness(&state, 1, 0, 600), expected);
}

#[test]
fn tick_steers_each_ship_by_its_pilot() {
    let forward = with_output_biases(3 * ONE, 0, 0, -3 * ONE);
    let gunner = with_output_biases(-3 * ONE, 0, 0, 3 * ONE);
    let mut state = GameState::new();
    tick(&forward, &gunner, &mut state);
    assert_eq!(state.time, SIM_DT);
    assert!(state.ships[0].vx > 3 * ONE);
    assert_eq!(state.ships[0].vy, 0);
    assert_eq!(state.ships[0].shots_fired, 0);
    assert!(state.ships[1].vx < 0 && state.ships[1].vx > -ONE);
    assert_eq!(state.ships[1].shots_fired, 1);
    assert_eq!(state.projectiles.len(), 1);
    assert_eq!(state.projectiles[0].owner, 1);
}

#[test]
fn thrusting_ship_approaches_a_passive_one() {
    let forward = with_output_biases(3 * ONE, 0, 0, -3 * ONE);
    let passive = zero();
    let mut state = GameState::new();
    let cap = (MAX_SHIP_SPEED as i128) * (MAX_SHIP_SPEED as i128);
    let mut nearest = state.ships[1].x - state.ships[0].x;
    let mut steps = 0;
    while !state.match_over {
        assert!(steps < SIM_STEPS);
        tick(&forward, &passive, &mut state);
        steps += 1;
        let ship = &state.ships[0];
        if ship.alive {
            let v = (ship.vx as i128) * (ship.vx as i128) + (ship.vy as i128) * (ship.vy as i128);
            assert!(v <= cap);
        }
        if steps == 60 {
            assert!(state.ships[1].x - state.ships[0].x < 320 * ONE);
        }
        nearest = nearest.min((state.ships[1].x - state.ships[0].x).abs());
    }
    assert!(nearest <= 24 * ONE + ONE);
    assert!(state.ships[0].hits_scored > 0 || (state.ships[0].alive && steps == SIM_STEPS));
    assert_eq!(state.ships[1].shots_fired, 0);
}

#[test]
fn gunner_hits_a_passive_ship_head_on() {
    let gunner = with_output_biases(3 * ONE, 0, 0, 3 * ONE);
    let passive = with_output_biases(-3 * ONE, 0, 0, -3 * ONE);
    let r = play(&gunner, &passive, GameState::new());
    assert!(r.fitness[0] > 150 * ONE);
    assert!(r.fitness[0] <= FITNESS_MAX);
    assert!(-DEATH_PENALTY <= r.fitness[1] && r.fitness[1] < 0);
    let r = play(&passive, &gunner, GameState::new());
    assert!(r.fitness[1] > 150 * ONE);
    assert!(r.fitness[0] < 0);
}

#[test]
fn passive_pilots_draw() {
    let passive = with_output_biases(-3 * ONE, 0, 0, -3 * ONE);
    let r = play(&passive, &passive, GameState::new());
    assert_eq!(r.fitness[0], r.fitness[1]);
    assert!(r.fitness[0] >= 15 * ONE);
    assert!(r.fitness[0] <= 35 * ONE);
}

#[test]
fn play_follows_the_ticks() {
    let mut rng = StdRng::seed_from_u64(31);
    let a = Genome::random(&mut rng);
    let b = Genome::random(&mut rng);
    let start = GameState::start(200 * ONE, ONE / 4, 400 * ONE, 3 * ONE);
    let mut state = start.clone();
    let mut steps = 0;
    while steps < SIM_STEPS && !state.match_over {
        tick(&a, &b, &mut state);
        steps += 1;
    }
    assert!(state.match_over);
    let r = play(&a, &b, start);
    let survival = |alive: bool| if alive { 15 } else { 5 } * (state.time / 30).min(ONE);
    for who in 0..2 {
        assert!(r.fitness[who] >= survival(state.ships[who].alive) - if state.ships[who].alive { 0 } else { DEATH_PENALTY });
        assert!(r.fitness[who] <= FITNESS_MAX);
    }
}

#[test]
fn matches_repeat_with_the_seed() {
    let mut rng = StdRng::seed_from_u64(41);
    let a = Genome::random(&mut rng);
    let b = Genome::random(&mut rng);
    let first = run_match(&a, &b, &mut StdRng::seed_from_u64(7));
    let second = run_match(&a, &b, &mut StdRng::seed_from_u64(7));
    assert_eq!(first.fitness, second.fitness);
    let mut one = GameState::new_random(&mut StdRng::seed_from_u64(7));
    let mut two = GameState::new_random(&mut StdRng::seed_from_u64(7));
    for _ in 0..200 {
        tick(&a, &b, &mut one);
        tick(&a, &b, &mut two);
        for who in 0..2 {
            let (p, q) = (&one.ships[who], &two.ships[who]);
            assert_eq!((p.x, p.y, p.vx, p.vy, p.rotation), (q.x, q.y, q.vx, q.vy, q.rotation));
            assert_eq!((p.alive, p.fire_cooldown), (q.alive, q.fire_cooldown));
            assert_eq!((p.shots_fired, p.hits_scored), (q.shots_fired, q.hits_scored));
        }
        assert_eq!(one.projectiles.len(), two.projectiles.len());
        assert_eq!((one.time, one.match_over, one.winner), (two.time, two.match_over, two.winner));
    }
}

#[test]
fn random_start_is_within_its_ranges() {
    let mut rng = StdRng::seed_from_u64(51);
    let mut heights = Vec::new();
    for _ in 0..50 {
        let state = GameState::new_random(&mut rng);
        assert_eq!(state.ships[0].x, 200 * ONE);
        assert_eq!(state.ships[1].x, 600 * ONE);
        for ship in state.ships.iter() {
            assert!(150 * ONE <= ship.y && ship.y < 450 * ONE);
            assert!(ship.alive);
            assert_eq!((ship.vx, ship.vy, ship.shots_fired, ship.hits_scored), (0, 0, 0, 0));
        }
        let r0 = state.ships[0].rotation;
        assert!(r0 < ONE / 2 || r0 >= 7_539_824 - ONE / 2);
        let r1 = state.ships[1].rotation;
        assert!(3_769_912 - ONE / 2 <= r1 && r1 < 3_769_912 + ONE / 2);
        assert!(state.projectiles.is_empty());
        assert!(!state.match_over);
        assert_eq!((state.time, state.winner), (0, None));
        heights.push(state.ships[0].y);
        heights.push(state.ships[1].y);
    }
    assert!(heights.iter().any(|&y| y < 250 * ONE));
    assert!(heights.iter().any(|&y| y > 350 * ONE));
}

#[test]
fn every_match_ends_with_bounded_fitness() {
    let mut rng = StdRng::seed_from_u64(61);
    for _ in 0..4 {
        let a = Genome::random(&mut rng);
        let b = Genome::random(&mut rng);
        let r = run_match(&a, &b, &mut rng);
        for f in r.fitness {
            assert!(-DEATH_PENALTY <= f && f <= FITNESS_MAX);
        }
    }
}
