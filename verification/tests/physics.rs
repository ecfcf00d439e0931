use spaceship_duel::contact::{bounce, CONTACT_DISTANCE};
use spaceship_duel::fixed::ONE;
use spaceship_duel::game::{
    GameState, Projectile, Ship, ARENA_HEIGHT, ARENA_WIDTH, FIRE_COOLDOWN, MATCH_DURATION,
    MAX_PROJECTILES_PER_SHIP, MAX_SHIP_SPEED, PROJECTILE_LIFETIME, PROJECTILE_SPEED, SHIP_DRAG,
    SHIP_RADIUS,
};
use spaceship_duel::motion::{cap_speed, drag_factor, Controls};
use spaceship_duel::trig::{FULL_TURN, HALF_TURN, QUARTER_TURN};
use spaceship_duel::volley::{count_owned, fire, fly};

const TICK: i64 = ONE / 60;
const IDLE: [i64; 4] = [0, 0, 0, 0];
const THRUST: [i64; 4] = [ONE, 0, 0, 0];
const FIRE: [i64; 4] = [0, 0, 0, ONE];

fn speed_sq(ship: &Ship) -> i128 {
    (ship.vx as i128) * (ship.vx as i128) + (ship.vy as i128) * (ship.vy as i128)
}

fn cap_sq() -> i128 {
    (MAX_SHIP_SPEED as i128) * (MAX_SHIP_SPEED as i128)
}

fn shot_at(x: i64, y: i64, owner: usize) -> Projectile {
    Projectile { x, y, vx: 0, vy: 0, lifetime: PROJECTILE_LIFETIME, owner }
}

#[test]
fn new_ship_is_at_rest() {
    let ship = Ship::new(200 * ONE, 300 * ONE, 0);
    assert_eq!((ship.x, ship.y, ship.vx, ship.vy, ship.rotation), (200 * ONE, 300 * ONE, 0, 0, 0));
    assert!(ship.alive);
    assert_eq!((ship.fire_cooldown, ship.shots_fired, ship.hits_scored), (0, 0, 0));
}

#[test]
fn new_ship_is_wrapped_into_the_arena() {
    let ship = Ship::new(-10 * ONE, 610 * ONE, -QUARTER_TURN);
    assert_eq!((ship.x, ship.y, ship.rotation), (790 * ONE, 10 * ONE, 3 * QUARTER_TURN));
    let ship = Ship::new(ARENA_WIDTH, ARENA_HEIGHT, FULL_TURN);
    assert_eq!((ship.x, ship.y, ship.rotation), (0, 0, 0));
}

#[test]
fn new_game_has_the_ships_face_to_face() {
    let state = GameState::new();
    assert_eq!((state.ships[0].x, state.ships[0].y), (200 * ONE, 300 * ONE));
    assert_eq!((state.ships[1].x, state.ships[1].y), (600 * ONE, 300 * ONE));
    assert_eq!(state.ships[0].rotation, 0);
    assert_eq!(state.ships[1].rotation, HALF_TURN);
    assert!(state.projectiles.is_empty());
    assert_eq!(state.time, 0);
    assert!(!state.match_over);
    assert_eq!(state.winner, None);
}

#[test]
fn controls_are_clamped_on_read() {
    let c = Controls::read(&[2 * ONE, -ONE, ONE / 2, ONE / 2]);
    assert_eq!((c.thrust, c.turn_left, c.turn_right, c.fire), (ONE, 0, ONE / 2, false));
    let c = Controls::read(&[-1, ONE + 1, i64::MAX, ONE / 2 + 1]);
    assert_eq!((c.thrust, c.turn_left, c.turn_right, c.fire), (0, ONE, ONE, true));
}

#[test]
fn drag_over_a_tick_and_between_ticks() {
    assert_eq!(drag_factor(0), ONE);
    assert_eq!(drag_factor(TICK), SHIP_DRAG);
    assert_eq!(drag_factor(2 * TICK), 1_152_480);
    assert_eq!(drag_factor(TICK / 2), 1_188_000);
    let whole = drag_factor(ONE) as f64 / ONE as f64;
    assert!((whole - 0.98f64.powi(60)).abs() < 0.0001);
}

#[test]
fn speed_cap_scales_down_fast_velocities_only() {
    assert_eq!(cap_speed(3 * ONE, 4 * ONE), (3 * ONE, 4 * ONE));
    assert_eq!(cap_speed(MAX_SHIP_SPEED, 0), (MAX_SHIP_SPEED, 0));
    assert_eq!(cap_speed(0, -MAX_SHIP_SPEED), (0, -MAX_SHIP_SPEED));
    assert_eq!(cap_speed(600 * ONE, 0), (MAX_SHIP_SPEED, 0));
    assert_eq!(cap_speed(300 * ONE, 400 * ONE), (180 * ONE, 240 * ONE));
    assert_eq!(cap_speed(-300 * ONE, -400 * ONE), (-180 * ONE, -240 * ONE));
    let (vx, vy) = cap_speed(1_234_567_891, -2_345_678_912);
    assert!((vx as i128) * (vx as i128) + (vy as i128) * (vy as i128) <= cap_sq());
    assert!((vx as i128) * (vx as i128) + (vy as i128) * (vy as i128) > cap_sq() * 999_999 / 1_000_000);
}

#[test]
fn thrust_accelerates_along_the_heading() {
    let ship = Ship::new(100 * ONE, 100 * ONE, 0);
    let next = ship.advance(Controls { thrust: ONE, turn_left: 0, turn_right: 0, fire: false }, TICK);
    assert_eq!(next.vx, 3_920_000);
    assert_eq!(next.vy, 0);
    assert_eq!(next.x, 100 * ONE + 65_333);
    assert_eq!(next.y, 100 * ONE);
    assert_eq!(next.rotation, 0);
    let ship = Ship::new(100 * ONE, 100 * ONE, QUARTER_TURN);
    let next = ship.advance(Controls { thrust: ONE, turn_left: 0, turn_right: 0, fire: false }, TICK);
    assert_eq!((next.vx, next.vy), (0, 3_920_000));
}

#[test]
fn turning_changes_the_heading_only() {
    let ship = Ship::new(100 * ONE, 100 * ONE, 0);
    let right = ship.advance(Controls { thrust: 0, turn_left: 0, turn_right: ONE, fire: false }, TICK);
    assert_eq!(right.rotation, 100_000);
    assert_eq!((right.x, right.y, right.vx, right.vy), (ship.x, ship.y, 0, 0));
    let left = ship.advance(Controls { thrust: 0, turn_left: ONE, turn_right: 0, fire: false }, TICK);
    assert_eq!(left.rotation, FULL_TURN - 100_000);
    let both = ship.advance(Controls { thrust: 0, turn_left: ONE, turn_right: ONE, fire: false }, TICK);
    assert_eq!(both.rotation, 0);
}

#[test]
fn cooldown_runs_down_to_zero() {
    let mut ship = Ship::new(0, 0, 0);
    ship.fire_cooldown = FIRE_COOLDOWN;
    let idle = Controls { thrust: 0, turn_left: 0, turn_right: 0, fire: false };
    let next = ship.advance(idle, TICK);
    assert_eq!(next.fire_cooldown, FIRE_COOLDOWN - TICK);
    let next = ship.advance(idle, ONE);
    assert_eq!(next.fire_cooldown, 0);
    let next = ship.advance(idle, FIRE_COOLDOWN);
    assert_eq!(next.fire_cooldown, 0);
}

#[test]
fn update_of_a_finished_match_only_moves_the_clock() {
    let mut state = GameState::new();
    state.match_over = true;
    state.projectiles.push(shot_at(600 * ONE, 300 * ONE, 0));
    state.update(TICK, &[THRUST, FIRE]);
    assert_eq!(state.time, TICK);
    assert!(state.match_over);
    assert_eq!(state.winner, None);
    assert_eq!(state.projectiles.len(), 1);
    assert_eq!(state.projectiles[0].lifetime, PROJECTILE_LIFETIME);
    assert!(state.ships[1].alive);
    assert_eq!((state.ships[0].x, state.ships[0].vx), (200 * ONE, 0));
    assert_eq!(state.ships[1].shots_fired, 0);
}

#[test]
fn firing_spawns_a_projectile_at_the_nose() {
    let mut state = GameState::new();
    state.update(TICK, &[FIRE, IDLE]);
    assert_eq!(state.projectiles.len(), 1);
    let p = state.projectiles[0];
    assert_eq!(p.owner, 0);
    assert_eq!((p.vx, p.vy), (PROJECTILE_SPEED, 0));
    assert_eq!(p.x, 200 * ONE + SHIP_RADIUS + PROJECTILE_SPEED / 60);
    assert_eq!(p.y, 300 * ONE);
    assert_eq!(p.lifetime, PROJECTILE_LIFETIME - TICK);
    assert_eq!(state.ships[0].shots_fired, 1);
    assert_eq!(state.ships[0].fire_cooldown, FIRE_COOLDOWN);
    assert_eq!(state.ships[1].shots_fired, 0);
}

#[test]
fn projectile_inherits_part_of_the_velocity() {
    let mut ship = Ship::new(100 * ONE, 100 * ONE, QUARTER_TURN);
    ship.vx = 100 * ONE;
    ship.vy = -50 * ONE;
    let p = fire(&ship, 1);
    assert_eq!((p.x, p.y), (100 * ONE, 112 * ONE));
    assert_eq!((p.vx, p.vy), (30 * ONE, PROJECTILE_SPEED - 15 * ONE));
    assert_eq!((p.lifetime, p.owner), (PROJECTILE_LIFETIME, 1));
}

#[test]
fn fire_signal_at_the_threshold_does_not_fire() {
    let mut state = GameState::new();
    state.update(TICK, &[[0, 0, 0, ONE / 2], [0, 0, 0, ONE / 2 + 1]]);
    assert_eq!(state.ships[0].shots_fired, 0);
    assert_eq!(state.ships[1].shots_fired, 1);
}

#[test]
fn cooldown_spaces_the_shots() {
    let mut state = GameState::new();
    state.ships[1].x = 0;
    state.ships[1].y = 0;
    let mut shots = Vec::new();
    for tick in 0..31 {
        let before = state.ships[0].shots_fired;
        state.update(TICK, &[FIRE, IDLE]);
        if state.ships[0].shots_fired > before {
            shots.push(tick);
        }
    }
    assert_eq!(shots, vec![0, 15, 30]);
}

#[test]
fn no_ship_has_more_projectiles_than_its_share() {
    let mut state = GameState::new();
    state.ships[1].x = 0;
    state.ships[1].y = 0;
    state.ships[0].rotation = QUARTER_TURN;
    for _ in 0..MAX_PROJECTILES_PER_SHIP {
        state.projectiles.push(shot_at(0, 300 * ONE, 0));
    }
    state.update(TICK, &[FIRE, FIRE]);
    assert_eq!(count_owned(&state.projectiles, 0), MAX_PROJECTILES_PER_SHIP);
    assert_eq!(count_owned(&state.projectiles, 1), 1);
    assert_eq!(state.ships[0].shots_fired, 0);
    assert_eq!(state.ships[0].fire_cooldown, 0);
    assert_eq!(state.ships[1].shots_fired, 1);
}

#[test]
fn projectile_cap_holds_throughout_a_firefight() {
    let mut state = GameState::new();
    state.ships[1].y = 100 * ONE;
    let mut most: usize = 0;
    for _ in 0..1000 {
        state.update(TICK / 8, &[FIRE, FIRE]);
        for who in 0..2 {
            let own = count_owned(&state.projectiles, who);
            assert!(own <= MAX_PROJECTILES_PER_SHIP);
            most = most.max(own);
        }
    }
    assert!(!state.match_over);
    assert_eq!(most, MAX_PROJECTILES_PER_SHIP);
    assert_eq!(state.ships[0].shots_fired, 6);
    let mut most: usize = 0;
    let mut state = GameState::new();
    state.ships[1].y = 100 * ONE;
    for _ in 0..600 {
        state.ships[0].fire_cooldown = 0;
        state.update(TICK, &[FIRE, IDLE]);
        assert!(count_owned(&state.projectiles, 0) <= MAX_PROJECTILES_PER_SHIP);
        most = most.max(count_owned(&state.projectiles, 0));
    }
    assert_eq!(most, MAX_PROJECTILES_PER_SHIP);
}

#[test]
fn projectiles_fly_wrap_and_expire() {
    let mut shots = vec![
        Projectile { x: 799 * ONE, y: ONE, vx: 120 * ONE, vy: -120 * ONE, lifetime: ONE, owner: 0 },
        Projectile { x: ONE, y: ONE, vx: 0, vy: 0, lifetime: TICK, owner: 1 },
        Projectile { x: ONE, y: ONE, vx: 0, vy: 0, lifetime: TICK + 1, owner: 1 },
    ];
    fly(&mut shots, TICK);
    assert_eq!(shots.len(), 2);
    assert_eq!((shots[0].x, shots[0].y), (ONE, 599 * ONE));
    assert_eq!((shots[0].vx, shots[0].vy), (120 * ONE, -120 * ONE));
    assert_eq!((shots[0].lifetime, shots[0].owner), (ONE - TICK, 0));
    assert_eq!((shots[1].lifetime, shots[1].owner), (1, 1));
}

#[test]
fn a_hit_kills_the_target_and_ends_the_match() {
    let mut state = GameState::new();
    state.projectiles.push(shot_at(600 * ONE + 13 * ONE, 300 * ONE, 0));
    state.projectiles.push(shot_at(100 * ONE, 100 * ONE, 1));
    state.update(TICK, &[IDLE, IDLE]);
    assert!(state.ships[0].alive);
    assert!(!state.ships[1].alive);
    assert_eq!(state.ships[0].hits_scored, 1);
    assert_eq!(state.ships[1].hits_scored, 0);
    assert_eq!(state.projectiles.len(), 1);
    assert_eq!(state.projectiles[0].owner, 1);
    assert!(state.match_over);
    assert_eq!(state.winner, Some(0));
}

#[test]
fn own_projectiles_and_near_misses_do_no_harm() {
    let mut state = GameState::new();
    state.projectiles.push(shot_at(600 * ONE, 300 * ONE, 1));
    state.projectiles.push(shot_at(600 * ONE + 14 * ONE, 300 * ONE, 0));
    state.projectiles.push(shot_at(200 * ONE, 300 * ONE + 14 * ONE, 1));
    state.update(TICK, &[IDLE, IDLE]);
    assert!(state.ships[0].alive && state.ships[1].alive);
    assert_eq!(state.projectiles.len(), 3);
    assert!(!state.match_over);
    assert_eq!(state.winner, None);
}

#[test]
fn only_the_first_projectile_is_spent_on_a_ship() {
    let mut state = GameState::new();
    state.projectiles.push(shot_at(10 * ONE, 10 * ONE, 0));
    state.projectiles.push(shot_at(601 * ONE, 300 * ONE, 0));
    state.projectiles.push(shot_at(602 * ONE, 300 * ONE, 0));
    state.update(TICK, &[IDLE, IDLE]);
    assert!(!state.ships[1].alive);
    assert_eq!(state.ships[0].hits_scored, 1);
    assert_eq!(state.projectiles.len(), 2);
    assert_eq!(state.projectiles[0].x, 10 * ONE);
    assert_eq!(state.projectiles[1].x, 602 * ONE);
}

#[test]
fn both_ships_can_die_in_one_step() {
    let mut state = GameState::new();
    state.projectiles.push(shot_at(200 * ONE, 301 * ONE, 1));
    state.projectiles.push(shot_at(50 * ONE, 50 * ONE, 1));
    state.projectiles.push(shot_at(600 * ONE, 299 * ONE, 0));
    state.update(TICK, &[IDLE, IDLE]);
    assert!(!state.ships[0].alive && !state.ships[1].alive);
    assert_eq!((state.ships[0].hits_scored, state.ships[1].hits_scored), (1, 1));
    assert_eq!(state.projectiles.len(), 1);
    assert_eq!(state.projectiles[0].x, 50 * ONE);
    assert!(state.match_over);
    assert_eq!(state.winner, None);
}

#[test]
fn a_hit_across_the_edge_of_the_arena() {
    let mut state = GameState::new();
    state.ships[1].x = ONE;
    state.ships[1].y = ONE;
    state.projectiles.push(shot_at(795 * ONE, 595 * ONE, 0));
    state.update(TICK, &[IDLE, IDLE]);
    assert!(!state.ships[1].alive);
    assert_eq!(state.winner, Some(0));
}

#[test]
fn time_ends_the_match_in_a_draw() {
    let mut state = GameState::new();
    state.time = MATCH_DURATION - 2 * TICK;
    state.update(TICK, &[IDLE, IDLE]);
    assert!(!state.match_over);
    state.update(TICK, &[IDLE, IDLE]);
    assert!(state.match_over);
    assert_eq!(state.winner, None);
    assert_eq!(state.time, MATCH_DURATION);
    assert!(state.ships[0].alive && state.ships[1].alive);
    state.update(TICK, &[IDLE, IDLE]);
    assert!(state.match_over);
    assert_eq!(state.time, MATCH_DURATION + TICK);
}

#[test]
fn a_dead_ship_is_not_moved() {
    let mut state = GameState::new();
    state.ships[1].alive = false;
    state.ships[1].vx = 100 * ONE;
    state.update(TICK, &[IDLE, [ONE, ONE, 0, ONE]]);
    assert_eq!(state.ships[1].x, 600 * ONE);
    assert_eq!(state.ships[1].vx, 100 * ONE);
    assert_eq!(state.ships[1].rotation, HALF_TURN);
    assert_eq!(state.ships[1].shots_fired, 0);
    assert!(state.projectiles.is_empty());
    assert!(state.match_over);
    assert_eq!(state.winner, Some(0));
}

#[test]
fn ships_that_touch_are_pushed_apart_and_swap_speed() {
    let mut a = Ship::new(300 * ONE, 300 * ONE, 0);
    let mut b = Ship::new(320 * ONE, 300 * ONE, HALF_TURN);
    a.vx = 50 * ONE;
    b.vx = -30 * ONE;
    let (a2, b2) = bounce(&a, &b);
    assert_eq!((a2.x, a2.y), (298 * ONE, 300 * ONE));
    assert_eq!((b2.x, b2.y), (322 * ONE, 300 * ONE));
    assert_eq!((a2.vx, a2.vy), (-30 * ONE, 0));
    assert_eq!((b2.vx, b2.vy), (50 * ONE, 0));
    assert_eq!(b2.x - a2.x, CONTACT_DISTANCE);
}

#[test]
fn ships_that_part_keep_their_speed() {
    let mut a = Ship::new(300 * ONE, 300 * ONE, 0);
    let mut b = Ship::new(300 * ONE, 310 * ONE, 0);
    a.vy = -10 * ONE;
    b.vy = 10 * ONE;
    let (a2, b2) = bounce(&a, &b);
    assert_eq!((a2.x, a2.y), (300 * ONE, 293 * ONE));
    assert_eq!((b2.x, b2.y), (300 * ONE, 317 * ONE));
    assert_eq!((a2.vx, a2.vy), (0, -10 * ONE));
    assert_eq!((b2.vx, b2.vy), (0, 10 * ONE));
}

#[test]
fn ships_apart_or_in_one_place_or_dead_do_not_bounce() {
    let mut a = Ship::new(300 * ONE, 300 * ONE, 0);
    let b = Ship::new(324 * ONE, 300 * ONE, 0);
    a.vx = 50 * ONE;
    let (a2, b2) = bounce(&a, &b);
    assert_eq!((a2.x, a2.vx, b2.x, b2.vx), (a.x, a.vx, b.x, b.vx));
    let c = Ship::new(300 * ONE, 300 * ONE + 30_000, 0);
    let (a2, c2) = bounce(&a, &c);
    assert_eq!((a2.y, a2.vx, c2.y, c2.vx), (a.y, a.vx, c.y, c.vx));
    let mut d = Ship::new(310 * ONE, 300 * ONE, 0);
    d.alive = false;
    let (a2, d2) = bounce(&a, &d);
    assert_eq!((a2.x, a2.vx, d2.x, d2.vx), (a.x, a.vx, d.x, d.vx));
}

#[test]
fn ships_bounce_across_the_edge_of_the_arena() {
    let a = Ship::new(795 * ONE, 100 * ONE, 0);
    let b = Ship::new(5 * ONE, 100 * ONE, 0);
    let (a2, b2) = bounce(&a, &b);
    assert_eq!(a2.x, 788 * ONE);
    assert_eq!(b2.x, 12 * ONE);
}

#[test]
fn speed_stays_within_the_cap_under_full_thrust() {
    let mut state = GameState::new();
    state.ships[1].y = 100 * ONE;
    state.ships[0].vx = 5 * MAX_SHIP_SPEED;
    state.ships[0].vy = -5 * MAX_SHIP_SPEED;
    for step in 0..400 {
        let dt = if step % 3 == 0 { ONE } else { TICK };
        state.update(dt, &[THRUST, [ONE, 0, ONE, 0]]);
        for ship in state.ships.iter() {
            assert!(speed_sq(ship) <= cap_sq());
            assert!(0 <= ship.x && ship.x < ARENA_WIDTH);
            assert!(0 <= ship.y && ship.y < ARENA_HEIGHT);
            assert!(0 <= ship.rotation && ship.rotation < FULL_TURN);
        }
        if state.match_over {
            break;
        }
    }
}

#[test]
fn a_bounce_can_carry_a_ship_beyond_the_cap_until_its_next_step() {
    let mut a = Ship::new(300 * ONE, 300 * ONE, 0);
    let mut b = Ship::new(320 * ONE, 300 * ONE, 0);
    a.vy = 290 * ONE;
    b.vx = -290 * ONE;
    let (a2, b2) = bounce(&a, &b);
    assert_eq!((a2.vx, a2.vy), (-290 * ONE, 290 * ONE));
    assert_eq!((b2.vx, b2.vy), (0, 0));
    assert!(speed_sq(&a2) > cap_sq());
    let idle = Controls { thrust: 0, turn_left: 0, turn_right: 0, fire: false };
    let a3 = a2.advance(idle, TICK);
    assert!(speed_sq(&a3) <= cap_sq());
    assert!(speed_sq(&a3) > cap_sq() * 999 / 1000);
}

#[test]
fn counters_and_clock_stop_at_their_largest_numbers() {
    let mut state = GameState::new();
    state.ships[0].shots_fired = usize::MAX;
    state.ships[1].shots_fired = usize::MAX - 1;
    state.ships[0].hits_scored = usize::MAX;
    state.projectiles.push(shot_at(600 * ONE, 300 * ONE, 0));
    state.time = i64::MAX - TICK / 2;
    state.update(TICK, &[FIRE, FIRE]);
    assert_eq!(state.ships[0].shots_fired, usize::MAX);
    assert_eq!(state.ships[1].shots_fired, usize::MAX);
    assert_eq!(state.ships[0].hits_scored, usize::MAX);
    assert_eq!(state.ships[0].fire_cooldown, FIRE_COOLDOWN);
    assert!(!state.ships[1].alive);
    assert_eq!(state.time, i64::MAX);
    assert!(state.match_over);
    assert_eq!(state.winner, Some(0));
    assert!(state.is_valid());
    state.update(5 * ONE, &[FIRE, FIRE]);
    assert_eq!(state.time, i64::MAX);
}

#[test]
fn a_step_of_five_seconds_keeps_the_match_valid() {
    let mut state = GameState::new();
    state.ships[1].y = 100 * ONE;
    state.ships[0].vx = 5 * MAX_SHIP_SPEED;
    state.ships[0].vy = 5 * MAX_SHIP_SPEED;
    state.ships[1].vx = -5 * MAX_SHIP_SPEED;
    state.projectiles.push(Projectile {
        x: 0,
        y: 0,
        vx: 700 * ONE,
        vy: -700 * ONE,
        lifetime: PROJECTILE_LIFETIME,
        owner: 0,
    });
    for _ in 0..5 {
        state.update(5 * ONE, &[[ONE, ONE, 0, ONE], [ONE, 0, ONE, ONE]]);
        assert!(state.is_valid());
        for ship in state.ships.iter() {
            assert!(speed_sq(ship) <= cap_sq());
        }
        for who in 0..2 {
            assert!(count_owned(&state.projectiles, who) <= MAX_PROJECTILES_PER_SHIP);
        }
    }
    assert_eq!(state.time, 25 * ONE);
}
