use not_asteroids::client::{LOWER_BOUND, UPPER_BOUND};
use not_asteroids::double::{Double, Vec2};
use not_asteroids::entity::{
    BULLET_RADIUS, BULLET_RADIUS_SQUARED, BULLET_SCALE, FIRST_SHOT, LOWER_EDGE, PLAYER_MAX_SPEED,
    PLAYER_RADIUS, PLAYER_RADIUS_SQUARED, PLAYER_SCALE, UPPER_EDGE, ZERO,
};
use not_asteroids::graveyard::NEVER;
use not_asteroids::ids::IdGen;
use not_asteroids::interpolation::lerp;
use not_asteroids::pace::remaining_time;

fn double(x: f64) -> Double {
    Double { bits: x.to_bits() }
}

#[test]
fn less_agrees_with_the_hardware() {
    let numbers = vec![
        f64::NEG_INFINITY,
        f64::MIN,
        -1.5,
        -1.0,
        -f64::MIN_POSITIVE,
        -5e-324,
        -0.0,
        0.0,
        5e-324,
        f64::MIN_POSITIVE,
        0.05,
        1.0,
        1.0 + f64::EPSILON,
        2.0,
        f64::MAX,
        f64::INFINITY,
        f64::NAN,
        -f64::NAN,
    ];
    for a in &numbers {
        for b in &numbers {
            assert_eq!(double(*a).less(double(*b)), a < b, "{} < {}", a, b);
        }
    }
}

#[test]
fn the_zeros_are_equal_and_nothing_compares_with_nan() {
    assert!(!double(-0.0).less(double(0.0)));
    assert!(!double(0.0).less(double(-0.0)));
    assert!(!double(f64::NAN).less(double(1.0)));
    assert!(!double(1.0).less(double(f64::NAN)));
    assert!(!double(1.0).less(double(1.0)));
}

#[test]
fn the_origin_is_zero() {
    assert_eq!(Vec2::origin(), Vec2 { x: double(0.0), y: double(0.0) });
}

#[test]
fn constants_are_the_numbers_of_the_rules() {
    let scale: f64 = 0.05;
    let radius = scale * 1.4;
    let bullet_scale: f64 = 0.02;
    let bullet_radius = 2. * bullet_scale;
    assert_eq!(f64::from_bits(ZERO), 0.0);
    assert_eq!(f64::from_bits(UPPER_EDGE), 1.0);
    assert_eq!(f64::from_bits(LOWER_EDGE), -1.0);
    assert_eq!(f64::from_bits(PLAYER_SCALE), scale);
    assert_eq!(f64::from_bits(PLAYER_RADIUS), radius);
    assert_eq!(f64::from_bits(PLAYER_RADIUS_SQUARED), radius * radius);
    let farthest_corner = scale * 2f64.sqrt();
    assert!(f64::from_bits(PLAYER_RADIUS) < farthest_corner);
    assert_eq!(f64::from_bits(PLAYER_MAX_SPEED), 0.6);
    assert_eq!(f64::from_bits(FIRST_SHOT), 0.0 + 0.2);
    assert_eq!(f64::from_bits(BULLET_SCALE), bullet_scale);
    assert_eq!(f64::from_bits(BULLET_RADIUS), bullet_radius);
    assert_eq!(f64::from_bits(BULLET_RADIUS_SQUARED), bullet_radius * bullet_radius);
    assert_eq!(f64::from_bits(UPPER_BOUND), 1.0 - scale);
    assert_eq!(f64::from_bits(LOWER_BOUND), -(1.0 - scale));
    assert_eq!(f64::from_bits(NEVER), f64::NEG_INFINITY);
    assert_eq!(f64::from_bits(NEVER) + 5.0, f64::NEG_INFINITY);
}

#[test]
fn ids_count_up() {
    let mut ids = IdGen(7);
    assert_eq!(ids.next(), 7);
    assert_eq!(ids.next(), 8);
    assert_eq!(ids.0, 9);
}

#[test]
fn lerp_reaches_both_ends() {
    assert_eq!(lerp(10i64, 30, 0), 10);
    assert_eq!(lerp(10i64, 30, 1), 30);
    assert_eq!(lerp(2.0, 4.0, 0.25), 2.5);
}

#[test]
fn a_tick_is_a_sixtieth_of_a_second() {
    let tick = (1_000_000_000. * (1. / 60.)) as u128;
    assert_eq!(remaining_time(0), Some(tick));
    assert_eq!(remaining_time(16_000_000), Some(666_666));
    assert_eq!(remaining_time(tick), Some(0));
    assert_eq!(remaining_time(tick + 1), None);
}
