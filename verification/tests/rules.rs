use not_asteroids::double::{Double, Vec2};
use not_asteroids::entity::{
    bullet, player, Bullet, Entity, EntityId, GameColor, GameEntity, GamePoly, Player, Team,
};
use not_asteroids::entity::{
    BULLET_RADIUS, BULLET_RADIUS_SQUARED, BULLET_SCALE, PLAYER_MAX_SPEED, PLAYER_RADIUS,
    PLAYER_SCALE,
};
use not_asteroids::hits::{
    add_scores, count_points, find_hits, is_among, settle, Distances, HitMessage,
};
use not_asteroids::lists::Scores;
use not_asteroids::motion::{update_physics, Motion};
use not_asteroids::packets::ObjectInfo;
use not_asteroids::teams::{count_teams, smallest_team};
use not_asteroids::world::player_key;
use std::collections::HashMap;

fn double(x: f64) -> Double {
    Double { bits: x.to_bits() }
}

fn point(x: f64, y: f64) -> Vec2 {
    Vec2 { x: double(x), y: double(y) }
}

fn ship(team: u8, id: u32, x: f64, y: f64) -> Player {
    let mut ship = player(Team(team), id);
    ship.shared.position = point(x, y);
    ship
}

fn shot(team: u8, id: u32, x: f64, y: f64) -> Bullet {
    bullet(id, &player(Team(team), 0).shared, point(x, y), point(0.0, 1.2))
}

fn squared_distance(a: &GameEntity, b: &GameEntity) -> Double {
    let dx = f64::from_bits(a.position.x.bits) - f64::from_bits(b.position.x.bits);
    let dy = f64::from_bits(a.position.y.bits) - f64::from_bits(b.position.y.bits);
    double(dx * dx + dy * dy)
}

fn distances(ships: &Vec<Player>, bullets: &Vec<Bullet>) -> Distances {
    Distances {
        between_players: ships
            .iter()
            .map(|a| ships.iter().map(|b| squared_distance(&a.shared, &b.shared)).collect())
            .collect(),
        to_bullets: ships
            .iter()
            .map(|p| bullets.iter().map(|b| squared_distance(&p.shared, &b.shared)).collect())
            .collect(),
    }
}

fn hit(killer: Option<u8>, victim_id: EntityId) -> HitMessage {
    HitMessage { killer: killer.map(Team), victim_id }
}

#[test]
fn a_new_ship_is_at_rest() {
    let ship = player(Team(3), 9);
    assert_eq!(ship.shared.entity_id, 9);
    assert_eq!(ship.shared.owning_team, Team(3));
    assert_eq!(ship.shared.position, Vec2::origin());
    assert_eq!(ship.shared.velocity, Vec2::origin());
    assert_eq!(ship.shared.rotation, double(0.0));
    assert_eq!(ship.acceleration(), Some(Vec2::origin()));
    assert_eq!(ship.fire_ready, double(0.2));
    assert!(!ship.controller.is_firing());
}

#[test]
fn a_bullet_is_of_its_ships_team() {
    let mut ship = player(Team(4), 1);
    ship.shared.rotation = double(1.0);
    let shot = bullet(8, &ship.shared, point(0.1, 0.2), point(0.3, 0.4));
    assert_eq!(
        shot.shared,
        GameEntity {
            entity_id: 8,
            owning_team: Team(4),
            position: point(0.1, 0.2),
            velocity: point(0.3, 0.4),
            rotation: double(0.0),
        }
    );
    assert_eq!(shot.acceleration(), None);
    ship.shared.entity_id = 77;
    ship.shared.velocity = point(0.5, 0.5);
    assert_eq!(bullet(8, &ship.shared, point(0.1, 0.2), point(0.3, 0.4)), shot);
}

#[test]
fn ships_and_bullets_look_different() {
    let ship = player(Team(1), 0).drawable();
    assert!(ship.should_wrap);
    assert_eq!(ship.color, GameColor::Team(1));
    assert_eq!(ship.poly, GamePoly::Player);
    assert_eq!(ship.scale.bits, PLAYER_SCALE);
    let shot = shot(2, 0, 0.0, 0.0).drawable();
    assert!(!shot.should_wrap);
    assert_eq!(shot.color, GameColor::Team(2));
    assert_eq!(shot.poly, GamePoly::Bullet);
    assert_eq!(shot.scale.bits, BULLET_SCALE);
}

#[test]
fn radii_and_speeds() {
    let ship = player(Team(1), 0);
    let shot = shot(2, 0, 0.0, 0.0);
    assert_eq!(ship.radius().bits, PLAYER_RADIUS);
    assert_eq!(shot.radius().bits, BULLET_RADIUS);
    assert_eq!(shot.radius_squared().bits, BULLET_RADIUS_SQUARED);
    assert_eq!(Player::max_speed().map(|s| s.bits), Some(PLAYER_MAX_SPEED));
    assert_eq!(Bullet::max_speed(), None);
    assert_eq!(ship.entity().entity_id, 0);
}

#[test]
fn what_is_told_of_an_entity() {
    let mut ship = ship(0, 1, 0.25, -0.5);
    ship.shared.velocity = point(0.5, 0.75);
    ship.shared.rotation = double(2.0);
    assert_eq!(
        ship.shared.info(),
        ObjectInfo {
            position: (double(0.25), double(-0.5)),
            velocity: (double(0.5), double(0.75)),
            rotation: double(2.0),
            rotation_speed: double(0.0),
        }
    );
}

#[test]
fn ships_touch_within_their_radius() {
    let one = ship(0, 1, 0.0, 0.0);
    let near = ship(1, 2, 0.069, 0.0);
    let far = ship(1, 3, 0.0705, 0.0);
    let friend = ship(0, 4, 0.0, 0.0);
    assert!(one.collides_with(&near.shared, squared_distance(&one.shared, &near.shared)));
    assert!(near.collides_with(&one.shared, squared_distance(&near.shared, &one.shared)));
    assert!(!one.collides_with(&far.shared, squared_distance(&one.shared, &far.shared)));
    assert!(!one.collides_with(&friend.shared, double(0.0)));
    assert!(!one.collides_with(&near.shared, double(f64::NAN)));
    let limit = one.radius_squared();
    assert!(!one.collides_with(&near.shared, limit));
}

#[test]
fn bullets_die_off_the_field() {
    assert!(!shot(0, 0, 0.0, 0.0).should_die());
    assert!(!shot(0, 0, 1.0, -1.0).should_die());
    assert!(shot(0, 0, 1.01, 0.0).should_die());
    assert!(shot(0, 0, -1.01, 0.0).should_die());
    assert!(shot(0, 0, 0.0, 1.01).should_die());
    assert!(shot(0, 0, 0.0, -1.01).should_die());
}

#[test]
fn ships_are_held_to_a_speed_and_bullets_keep_theirs() {
    let fast = Motion {
        position: point(0.5, 0.5),
        velocity: point(0.8, 0.0),
        speed: double(0.8),
        limited: point(0.6, 0.0),
    };
    let slow = Motion { velocity: point(0.6, 0.0), speed: double(0.6), ..fast };
    let mut ship = ship(0, 1, 0.0, 0.0);
    let mut shot = shot(0, 2, 0.0, 0.0);
    let acceleration = ship.acceleration;
    update_physics(&mut ship, &fast);
    assert_eq!(ship.shared.position, point(0.5, 0.5));
    assert_eq!(ship.shared.velocity, point(0.6, 0.0));
    assert_eq!(ship.shared.entity_id, 1);
    assert_eq!(ship.acceleration, acceleration);
    update_physics(&mut ship, &slow);
    assert_eq!(ship.shared.velocity, slow.velocity);
    update_physics(&mut shot, &fast);
    assert_eq!(shot.shared.position, point(0.5, 0.5));
    assert_eq!(shot.shared.velocity, point(0.0, 1.2));
}

#[test]
fn entities_can_be_changed_in_place() {
    let mut ship = ship(1, 5, 0.0, 0.0);
    ship.entity_mut().position = point(0.3, 0.4);
    assert_eq!(ship.shared.position, point(0.3, 0.4));
    assert_eq!(ship.entity().entity_id, 5);
    let mut shot = shot(1, 6, 0.0, 0.0);
    shot.entity_mut().owning_team = Team(2);
    assert_eq!(shot.shared.owning_team, Team(2));
}

#[test]
fn hits_are_found_in_order() {
    let ships = vec![ship(0, 10, 0.0, 0.0), ship(1, 11, 0.05, 0.0), ship(1, 12, 0.9, 0.9)];
    let bullets = vec![shot(0, 20, 0.9, 0.9), shot(1, 21, 0.9, 0.9)];
    let hits = find_hits(&ships, &bullets, &distances(&ships, &bullets));
    assert_eq!(
        hits,
        vec![
            hit(None, EntityId::Player(0)),
            hit(None, EntityId::Player(1)),
            hit(None, EntityId::Player(1)),
            hit(None, EntityId::Player(0)),
            hit(Some(0), EntityId::Player(2)),
            hit(None, EntityId::Bullet(0)),
        ]
    );
    let (killers, victims) = settle(&hits);
    assert_eq!(killers, vec![Team(0)]);
    assert_eq!(
        victims,
        vec![
            EntityId::Player(0),
            EntityId::Player(1),
            EntityId::Player(2),
            EntityId::Bullet(0),
        ]
    );
    assert!(is_among(&victims, EntityId::Player(2)));
    assert!(!is_among(&victims, EntityId::Bullet(1)));
}

#[test]
fn nothing_hits_on_an_empty_field() {
    let none = Distances { between_players: vec![], to_bullets: vec![] };
    assert_eq!(find_hits(&vec![], &vec![], &none), vec![]);
    assert_eq!(settle(&vec![]), (vec![], vec![]));
}

#[test]
fn every_kill_is_a_point() {
    let mut scores = Scores::from_items(vec![5, 0, 7]);
    let killers = vec![Team(2), Team(0), Team(2)];
    assert_eq!(count_points(&killers, 2), 2);
    assert_eq!(count_points(&killers, 1), 0);
    add_scores(&mut scores, &killers);
    assert_eq!(scores.items(), vec![6, 0, 9]);
}

#[test]
fn new_players_join_the_smallest_team() {
    assert_eq!(smallest_team(&vec![2, 1, 1]), Team(1));
    assert_eq!(smallest_team(&vec![0, 0]), Team(0));
    assert_eq!(smallest_team(&vec![3, 3, 2]), Team(2));
    assert_eq!(smallest_team(&vec![]), Team(0));
}

#[test]
fn teams_are_counted() {
    let mut players = HashMap::new();
    players.insert(player_key(0, 0), player(Team(0), 0));
    players.insert(player_key(0, 1), player(Team(2), 1));
    players.insert(player_key(1, 0), player(Team(2), 2));
    assert_eq!(count_teams(&players, 3), vec![1, 0, 2]);
    assert_eq!(count_teams(&players, 2), vec![1, 0]);
    assert_eq!(count_teams(&players, 256), Vec::<u32>::new());
    assert_eq!(count_teams(&players, 257), vec![1]);
}

#[test]
fn players_have_different_keys() {
    assert_eq!(player_key(0, 7), 7);
    assert_eq!(player_key(1, 0), 0x1_0000_0000);
    assert_ne!(player_key(1, 2), player_key(2, 1));
    assert_eq!(player_key(u32::MAX, u32::MAX), u64::MAX);
}
