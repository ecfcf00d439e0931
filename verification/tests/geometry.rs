use spaceship_duel::fixed::ONE;
use spaceship_duel::game::{
    toroidal_diff, way_between, wrap, ARENA_HEIGHT, ARENA_WIDTH,
};

#[test]
fn wrap_brings_into_range() {
    assert_eq!(wrap(0, ARENA_WIDTH), 0);
    assert_eq!(wrap(ARENA_WIDTH, ARENA_WIDTH), 0);
    assert_eq!(wrap(ARENA_WIDTH - 1, ARENA_WIDTH), ARENA_WIDTH - 1);
    assert_eq!(wrap(-1, ARENA_WIDTH), ARENA_WIDTH - 1);
    assert_eq!(wrap(810 * ONE, ARENA_WIDTH), 10 * ONE);
    assert_eq!(wrap(-10 * ONE, ARENA_WIDTH), 790 * ONE);
    assert_eq!(wrap(2410 * ONE, ARENA_WIDTH), 10 * ONE);
    assert_eq!(wrap(-1610 * ONE, ARENA_WIDTH), 790 * ONE);
    assert_eq!(wrap(7, 1), 0);
    assert_eq!(wrap(i64::MIN, 10), 2);
    assert_eq!(wrap(i64::MAX, 10), 7);
}

#[test]
fn wrap_stays_in_range_and_is_idempotent() {
    let maxima: [i64; 5] = [1, 2, 7, ARENA_HEIGHT, ARENA_WIDTH];
    for max in maxima {
        let mut v: i64 = -3 * max - 5;
        while v <= 3 * max + 5 {
            let w = wrap(v, max);
            assert!(0 <= w && w < max);
            assert_eq!(wrap(w, max), w);
            assert_eq!((w - v) % max, 0);
            v += 1 + max / 97;
        }
    }
}

#[test]
fn toroidal_diff_takes_the_short_way() {
    assert_eq!(toroidal_diff(10 * ONE, 790 * ONE, ARENA_WIDTH), 20 * ONE);
    assert_eq!(toroidal_diff(790 * ONE, 10 * ONE, ARENA_WIDTH), -20 * ONE);
    assert_eq!(toroidal_diff(300 * ONE, 100 * ONE, ARENA_WIDTH), 200 * ONE);
    assert_eq!(toroidal_diff(100 * ONE, 300 * ONE, ARENA_WIDTH), -200 * ONE);
    assert_eq!(toroidal_diff(5, 5, ARENA_WIDTH), 0);
    assert_eq!(toroidal_diff(3, 0, 5), -2);
    assert_eq!(toroidal_diff(2, 0, 5), 2);
}

#[test]
fn toroidal_diff_at_half_the_circle() {
    assert_eq!(toroidal_diff(400 * ONE, 0, ARENA_WIDTH), 400 * ONE);
    assert_eq!(toroidal_diff(0, 400 * ONE, ARENA_WIDTH), -400 * ONE);
    assert_eq!(toroidal_diff(400 * ONE + 1, 0, ARENA_WIDTH), -400 * ONE + 1);
    assert_eq!(toroidal_diff(0, 400 * ONE + 1, ARENA_WIDTH), 400 * ONE - 1);
}

#[test]
fn toroidal_diff_is_antisymmetric_and_short() {
    let max: i64 = 800;
    let mut a: i64 = 0;
    while a < max {
        let mut b: i64 = 0;
        while b < max {
            let d = toroidal_diff(a, b, max);
            assert_eq!(d, -toroidal_diff(b, a, max));
            assert!(-max / 2 <= d && d <= max / 2);
            assert_eq!((d - (a - b)) % max, 0);
            b += 13;
        }
        a += 7;
    }
}

#[test]
fn toroidal_diff_beyond_the_circle() {
    assert_eq!(toroidal_diff(2000, 0, 800), 1200);
    assert_eq!(toroidal_diff(-2000, 0, 800), -1200);
}

#[test]
fn way_across_the_arena() {
    assert_eq!(
        way_between(10 * ONE, 590 * ONE, 790 * ONE, 10 * ONE),
        (20 * ONE, -20 * ONE, 2 * (20 * ONE) * (20 * ONE))
    );
    assert_eq!(way_between(3, 4, 0, 0), (3, 4, 25));
    assert_eq!(way_between(0, 0, 0, 0), (0, 0, 0));
}
