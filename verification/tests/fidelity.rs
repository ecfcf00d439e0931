use rand::rngs::StdRng;
use rand::SeedableRng;
use spaceship_duel::fixed::ONE;
use spaceship_duel::game::{GameState, Projectile, Ship, PROJECTILE_LIFETIME};
use spaceship_duel::genome::{Genome, GENOME_SIZE};
use spaceship_duel::motion::Controls;
use spaceship_duel::trig::{FULL_TURN, HALF_TURN};

const TICK: i64 = ONE / 60;

fn units(x: i64) -> f64 {
    x as f64 / ONE as f64
}

fn fixed(x: f64) -> i64 {
    (x * ONE as f64).round() as i64
}

fn across(a: f64, b: f64, max: f64) -> f64 {
    let d = (a - b).rem_euclid(max);
    d.min(max - d)
}

struct Body {
    x: f64,
    y: f64,
    vx: f64,
    vy: f64,
    rotation: f64,
}

impl Body {
    fn step(&mut self, thrust: f64, left: f64, right: f64, dt: f64) {
        self.rotation += (right - left) * 5.0 * dt;
        self.vx += self.rotation.cos() * thrust * 200.0 * dt;
        self.vy += self.rotation.sin() * thrust * 200.0 * dt;
        let drag = 0.98f64.powf(dt * 60.0);
        self.vx *= drag;
        self.vy *= drag;
        let speed = (self.vx * self.vx + self.vy * self.vy).sqrt();
        if speed > 300.0 {
            self.vx *= 300.0 / speed;
            self.vy *= 300.0 / speed;
        }
        self.x = (self.x + self.vx * dt).rem_euclid(800.0);
        self.y = (self.y + self.vy * dt).rem_euclid(600.0);
    }
}

#[test]
fn ship_follows_the_laws_of_motion() {
    let mut ship = Ship::new(123 * ONE, 456 * ONE, ONE / 3);
    let mut body = Body { x: 123.0, y: 456.0, vx: 0.0, vy: 0.0, rotation: 1.0 / 3.0 };
    for step in 0..600 {
        let thrust = if step % 50 < 40 { ONE } else { ONE / 4 };
        let left = if step % 90 < 20 { 3 * ONE / 4 } else { 0 };
        let right = if step % 70 < 10 { ONE } else { 0 };
        ship = ship.advance(Controls { thrust, turn_left: left, turn_right: right, fire: false }, TICK);
        body.step(units(thrust), units(left), units(right), 1.0 / 60.0);
        assert!(across(units(ship.x), body.x, 800.0) < 0.01, "x at step {}", step);
        assert!(across(units(ship.y), body.y, 600.0) < 0.01, "y at step {}", step);
        assert!((units(ship.vx) - body.vx).abs() < 0.01, "vx at step {}", step);
        assert!((units(ship.vy) - body.vy).abs() < 0.01, "vy at step {}", step);
        let turn = 2.0 * std::f64::consts::PI;
        assert!(across(units(ship.rotation), body.rotation, turn) < 0.001);
    }
}

#[test]
fn fast_ship_is_slowed_to_the_cap_like_a_real_one() {
    let mut ship = Ship::new(0, 0, 0);
    ship.vx = 900 * ONE;
    ship.vy = -1200 * ONE;
    let mut body = Body { x: 0.0, y: 0.0, vx: 900.0, vy: -1200.0, rotation: 0.0 };
    for _ in 0..20 {
        ship = ship.advance(Controls { thrust: ONE, turn_left: 0, turn_right: 0, fire: false }, TICK);
        body.step(1.0, 0.0, 0.0, 1.0 / 60.0);
        assert!((units(ship.vx) - body.vx).abs() < 0.001);
        assert!((units(ship.vy) - body.vy).abs() < 0.001);
        assert!(across(units(ship.x), body.x, 800.0) < 0.001);
        assert!(across(units(ship.y), body.y, 600.0) < 0.001);
    }
}

#[test]
fn long_steps_follow_the_laws_of_motion() {
    for frame in [ONE / 30, ONE / 24, ONE / 7, ONE / 2, ONE] {
        let mut ship = Ship::new(400 * ONE, 300 * ONE, 2 * ONE);
        let mut body = Body { x: 400.0, y: 300.0, vx: 0.0, vy: 0.0, rotation: 2.0 };
        for _ in 0..10 {
            ship = ship.advance(
                Controls { thrust: ONE, turn_left: ONE / 10, turn_right: 0, fire: false },
                frame,
            );
            body.step(1.0, 0.1, 0.0, units(frame));
            assert!((units(ship.vx) - body.vx).abs() < 0.05, "frame {}", frame);
            assert!((units(ship.vy) - body.vy).abs() < 0.05, "frame {}", frame);
        }
    }
}

#[test]
fn bearings_follow_the_arc_tangent() {
    let mut state = GameState::new();
    let mut rng = StdRng::seed_from_u64(81);
    for _ in 0..200 {
        let fresh = GameState::new_random(&mut rng);
        state.ships[0].y = fresh.ships[0].y;
        state.ships[0].rotation = fresh.ships[1].rotation;
        state.ships[1].x = fresh.ships[1].y;
        state.ships[1].y = fresh.ships[0].y / 2 + fresh.ships[1].y / 3;
        state.ships[1].rotation = fresh.ships[0].rotation;
        state.ships[0].vx = fresh.ships[1].y - 300 * ONE;
        state.ships[0].vy = 300 * ONE - fresh.ships[0].y;
        state.projectiles = vec![Projectile {
            x: fresh.ships[0].y,
            y: fresh.ships[1].y,
            vx: 0,
            vy: 0,
            lifetime: PROJECTILE_LIFETIME,
            owner: 1,
        }];
        let (ship, opp) = (state.ships[0], state.ships[1]);
        let wrap = |d: f64, max: f64| {
            if d > max / 2.0 {
                d - max
            } else if d < -max / 2.0 {
                d + max
            } else {
                d
            }
        };
        let dx = wrap(units(opp.x) - units(ship.x), 800.0);
        let dy = wrap(units(opp.y) - units(ship.y), 600.0);
        let aim = dy.atan2(dx) - units(ship.rotation);
        let facing = units(opp.rotation) - (-dy).atan2(-dx);
        let drift = units(ship.vy).atan2(units(ship.vx)) - units(ship.rotation);
        let speed = (units(ship.vx).powi(2) + units(ship.vy).powi(2)).sqrt();
        let p = state.projectiles[0];
        let bx = wrap(units(p.x) - units(ship.x), 800.0);
        let by = wrap(units(p.y) - units(ship.y), 600.0);
        let threat = by.atan2(bx) - units(ship.rotation);
        let expected = [
            ((dx * dx + dy * dy).sqrt().max(1.0) / 500.0).min(1.0),
            aim.sin(),
            aim.cos(),
            facing.sin(),
            facing.cos(),
            (speed / 300.0).min(1.0),
            0.0,
            ((bx * bx + by * by).sqrt() / 500.0).min(1.0),
            threat.sin(),
            threat.cos(),
            if speed > 1.0 { drift.sin() } else { 0.0 },
            if speed > 1.0 { drift.cos() } else { 1.0 },
            0.0,
            0.0,
        ];
        let inputs = Genome::get_inputs(&state, 0);
        for (k, (&got, &want)) in inputs.iter().zip(expected.iter()).enumerate() {
            assert!((units(got) - want).abs() < 0.00002, "signal {}: {} for {}", k, got, want);
        }
    }
}

#[test]
fn network_follows_the_real_formulas() {
    let mut rng = StdRng::seed_from_u64(82);
    for round in 0..20 {
        let mut g = Genome::random(&mut rng);
        if round % 2 == 1 {
            g.mutate(ONE, 3 * ONE, &mut rng);
        }
        let probe = Genome::random(&mut rng);
        let mut inputs = [0i64; 14];
        inputs.copy_from_slice(&probe.weights[..14]);
        let w: Vec<f64> = g.weights.iter().map(|&w| units(w)).collect();
        let x: Vec<f64> = inputs.iter().map(|&x| units(x)).collect();
        let mut idx = 0;
        let mut hidden = [0.0f64; 20];
        for h in hidden.iter_mut() {
            let mut sum = 0.0;
            for &inp in x.iter() {
                sum += inp * w[idx];
                idx += 1;
            }
            sum += w[idx];
            idx += 1;
            *h = sum.tanh();
        }
        let mut expected = [0.0f64; 4];
        for o in expected.iter_mut() {
            let mut sum = 0.0;
            for &h in hidden.iter() {
                sum += h * w[idx];
                idx += 1;
            }
            sum += w[idx];
            idx += 1;
            *o = 1.0 / (1.0 + (-sum).exp());
        }
        assert_eq!(idx, GENOME_SIZE);
        let out = g.evaluate(&inputs);
        for (k, (&got, &want)) in out.iter().zip(expected.iter()).enumerate() {
            assert!((units(got) - want).abs() < 0.0001, "output {}: {} for {}", k, got, want);
        }
    }
}

#[test]
fn fixed_point_conversion_is_exact_for_the_constants() {
    assert_eq!(fixed(0.98), 1_176_000);
    assert_eq!(fixed(0.25), 300_000);
    assert_eq!(fixed(0.3), 360_000);
    assert_eq!(fixed(1.0 / 60.0), TICK);
    assert_eq!(fixed(0.15), 180_000);
    assert_eq!(fixed(0.4), 480_000);
    assert_eq!(fixed(0.7), 840_000);
    assert!((HALF_TURN - fixed(std::f64::consts::PI)).abs() <= 1);
    assert_eq!(FULL_TURN, 2 * HALF_TURN);
}
