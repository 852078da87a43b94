use not_asteroids::controller::ControllerState;
use not_asteroids::double::{Double, Vec2};
use not_asteroids::entity::{GameColor, GamePoly, Team};
use not_asteroids::hits::Distances;
use not_asteroids::lists::Scores;
use not_asteroids::motion::Motion;
use not_asteroids::packets::{ClientHandshake, ClientMessage};
use not_asteroids::steering::Steering;
use not_asteroids::tick::Step;
use not_asteroids::world::{player_key, World};

const FIRING: ControllerState = ControllerState {
    up: false,
    down: false,
    left: false,
    right: false,
    fire: true,
};

fn double(x: f64) -> Double {
    Double { bits: x.to_bits() }
}

fn point(x: f64, y: f64) -> Vec2 {
    Vec2 { x: double(x), y: double(y) }
}

fn asks_for(requested_players: u32) -> ClientMessage {
    ClientMessage::Handshake(ClientHandshake { requested_players })
}

fn all_far(ships: usize, bullets: usize) -> Distances {
    Distances {
        between_players: vec![vec![double(1.0); ships]; ships],
        to_bullets: vec![vec![double(1.0); bullets]; ships],
    }
}

fn drifting(x: f64, y: f64) -> Motion {
    Motion {
        position: point(x, y),
        velocity: point(0.1, 0.0),
        speed: double(0.1),
        limited: point(0.6, 0.0),
    }
}

fn steering(x: f64, y: f64) -> Steering {
    Steering {
        rotation: double(0.5),
        acceleration: point(0.0, 2.0),
        position: point(x, y),
        muzzle_position: point(x, y + 0.05),
        muzzle_velocity: point(0.0, 1.2),
    }
}

/// Two teams, one client with two players, both on the field.
fn duel() -> World {
    let mut world = World::new(2);
    let _ = world.welcome(asks_for(2));
    world.release_due(double(0.1));
    assert!(world.try_spawn(point(0.0, 0.0), &vec![], double(0.1)));
    assert!(world.try_spawn(point(0.5, 0.5), &vec![double(0.5)], double(0.1)));
    world
}

#[test]
fn a_new_server_is_empty() {
    let mut world = World::new(3);
    assert_eq!(world.scores.items(), vec![0, 0, 0]);
    assert!(world.ships().is_empty());
    assert!(world.broadcast(double(1.0)).is_none());
    let told = world.handshake();
    assert!(told.objects.items().is_empty());
    assert_eq!(told.scores.items(), vec![0, 0, 0]);
}

#[test]
fn clients_are_taken_in_and_teams_stay_balanced() {
    let mut world = World::new(2);
    let (first, told) = world.welcome(asks_for(3)).unwrap();
    assert_eq!(first, 0);
    assert_eq!(told.scores.items(), vec![0, 0]);
    let (second, _) = world.welcome(asks_for(1)).unwrap();
    assert_eq!(second, 1);
    let team = |client, local| world.players[&player_key(client, local)].shared.owning_team;
    assert_eq!(team(0, 0), Team(0));
    assert_eq!(team(0, 1), Team(1));
    assert_eq!(team(0, 2), Team(0));
    assert_eq!(team(1, 0), Team(1));
    let id = |client, local| world.players[&player_key(client, local)].shared.entity_id;
    assert_eq!((id(0, 0), id(0, 1), id(0, 2), id(1, 0)), (0, 1, 2, 3));
    assert_eq!(world.dead.len(), 4);
    assert_eq!(world.entity_ids.0, 4);
    assert_eq!(world.client_ids.0, 2);
}

#[test]
fn without_teams_everybody_is_in_team_zero() {
    let mut world = World::new(0);
    assert_eq!(world.join(2), 0);
    assert_eq!(world.players[&player_key(0, 0)].shared.owning_team, Team(0));
    assert_eq!(world.players[&player_key(0, 1)].shared.owning_team, Team(0));
}

#[test]
fn only_those_who_ask_to_play_are_answered() {
    let mut world = World::new(2);
    assert!(world.welcome(ClientMessage::ControllerUpdate(0, FIRING)).is_none());
    assert!(world.players.is_empty());
    assert_eq!(world.client_ids.0, 0);
}

#[test]
fn joining_changes_nothing_of_the_field() {
    let mut world = duel();
    let before = world.handshake().objects.items();
    assert_eq!(before.len(), 2);
    let (_, told) = world.welcome(asks_for(5)).unwrap();
    assert_eq!(told.objects.items(), before);
    assert_eq!(world.handshake().objects.items(), before);
}

#[test]
fn players_get_their_ship_when_it_is_due() {
    let mut world = duel();
    world.join(1);
    world.dead[0].since = double(1.0);
    world.dead[0].respawn_at = double(6.0);
    world.release_due(double(5.9));
    assert_eq!(world.dead.len(), 1);
    assert!(world.spawning.is_empty());
    world.release_due(double(6.0));
    assert!(world.dead.is_empty());
    assert_eq!(world.spawning, vec![player_key(1, 0)]);
}

#[test]
fn a_ship_does_not_enter_on_top_of_an_enemy() {
    let mut world = World::new(2);
    world.join(3);
    world.release_due(double(0.1));
    assert_eq!(world.spawning, vec![0, 1, 2]);
    assert!(world.try_spawn(point(0.1, 0.1), &vec![], double(0.1)));
    assert!(!world.try_spawn(point(0.1, 0.1), &vec![double(0.0)], double(0.1)));
    assert_eq!(world.live, vec![0]);
    assert_eq!(world.new_objects.items().len(), 1);
    assert!(world.try_spawn(point(-0.5, 0.1), &vec![double(0.36)], double(0.2)));
    // A friend may.
    assert!(world.try_spawn(point(0.1, 0.1), &vec![double(0.0), double(0.36)], double(0.3)));
    assert_eq!(world.live, vec![0, 1, 2]);
    let told = world.new_objects.items();
    assert_eq!(told.iter().map(|n| n.id).collect::<Vec<u32>>(), vec![0, 1, 2]);
    assert_eq!(told[1].time, double(0.2));
    assert_eq!(told[1].drawable.color, GameColor::Team(1));
    assert_eq!(told[1].drawable.poly, GamePoly::Player);
    assert_eq!(told[1].initial_info.position, (double(-0.5), double(0.1)));
    assert_eq!(world.ships()[1].shared.position, point(-0.5, 0.1));
}

#[test]
fn a_ship_enters_at_rest() {
    let mut world = World::new(1);
    world.join(1);
    let mut tired = world.players[&0];
    tired.controller = FIRING;
    tired.acceleration = point(1.0, 1.0);
    tired.shared.velocity = point(0.3, 0.3);
    tired.shared.rotation = double(2.0);
    world.players.insert(0, tired);
    world.release_due(double(0.1));
    assert!(world.try_spawn(point(0.2, 0.3), &vec![], double(0.1)));
    let fresh = world.players[&0];
    assert_eq!(fresh.controller, ControllerState::default());
    assert_eq!(fresh.acceleration, Vec2::origin());
    assert_eq!(fresh.shared.velocity, Vec2::origin());
    assert_eq!(fresh.shared.position, point(0.2, 0.3));
    assert_eq!(fresh.shared.rotation, double(2.0));
}

#[test]
fn reports_set_the_controls_of_their_player() {
    let mut world = duel();
    assert!(world.hear(0, ClientMessage::ControllerUpdate(1, FIRING)));
    assert_eq!(world.players[&1].controller, FIRING);
    assert_eq!(world.players[&0].controller, ControllerState::default());
    assert!(world.hear(7, ClientMessage::ControllerUpdate(0, FIRING)));
    assert_eq!(world.players.len(), 2);
    assert!(!world.hear(0, asks_for(9)));
    assert_eq!(world.players.len(), 2);
}

#[test]
fn a_shot_takes_two_ids() {
    let mut world = duel();
    world.hear(0, ClientMessage::ControllerUpdate(0, FIRING));
    world.steer(&vec![steering(0.0, 0.0), steering(0.5, 0.5)], double(1.0), double(1.2));
    assert_eq!(world.bullets.len(), 1);
    assert_eq!(world.bullets[0].shared.entity_id, 3);
    assert_eq!(world.bullets[0].shared.owning_team, Team(0));
    assert_eq!(world.bullets[0].shared.position, point(0.0, 0.05));
    assert_eq!(world.bullets[0].shared.velocity, point(0.0, 1.2));
    let told = world.new_objects.items();
    assert_eq!(told.len(), 3);
    assert_eq!(told[2].id, 2);
    assert_eq!(told[2].drawable.poly, GamePoly::Bullet);
    assert_eq!(world.entity_ids.0, 4);
    let ship = world.players[&0];
    assert_eq!(ship.fire_ready, double(1.2));
    assert_eq!(ship.acceleration, point(0.0, 2.0));
    assert_eq!(ship.shared.rotation, double(0.5));
    assert_eq!(world.players[&1].fire_ready, double(0.2));
}

#[test]
fn shots_keep_their_distance_in_time() {
    let mut world = duel();
    world.hear(0, ClientMessage::ControllerUpdate(0, FIRING));
    let steerings = vec![steering(0.0, 0.0), steering(0.5, 0.5)];
    world.steer(&steerings, double(0.2), double(0.4));
    assert_eq!(world.bullets.len(), 0);
    world.steer(&steerings, double(0.21), double(0.41));
    assert_eq!(world.bullets.len(), 1);
    world.steer(&steerings, double(0.41), double(0.61));
    assert_eq!(world.bullets.len(), 1);
    world.steer(&steerings, double(0.42), double(0.62));
    assert_eq!(world.bullets.len(), 2);
}

#[test]
fn shots_need_ids() {
    let mut world = duel();
    assert!(world.can_steer(double(1.0)));
    world.entity_ids.0 = u32::MAX - 1;
    assert!(world.can_steer(double(1.0)));
    world.hear(0, ClientMessage::ControllerUpdate(0, FIRING));
    assert!(!world.can_steer(double(1.0)));
    assert!(world.can_steer(double(0.1)));
    world.entity_ids.0 = u32::MAX - 2;
    assert!(world.can_steer(double(1.0)));
}

#[test]
fn points_need_room() {
    let mut world = duel();
    world.hear(0, ClientMessage::ControllerUpdate(0, FIRING));
    world.steer(&vec![steering(0.0, 0.0), steering(0.5, 0.5)], double(1.0), double(1.2));
    let mut near = all_far(2, 1);
    near.to_bullets[1][0] = double(0.001);
    assert!(world.can_collide(&near));
    world.scores = Scores::from_items(vec![u32::MAX, 0]);
    assert!(!world.can_collide(&near));
    assert!(world.can_collide(&all_far(2, 1)));
}

#[test]
fn a_hit_scores_and_clears_the_field() {
    let mut world = duel();
    world.hear(0, ClientMessage::ControllerUpdate(0, FIRING));
    world.steer(&vec![steering(0.0, 0.0), steering(0.5, 0.5)], double(1.0), double(1.2));
    let mut near = all_far(2, 1);
    near.to_bullets[1][0] = double(0.001);
    let news = world.collide(&near, double(1.0), double(6.0)).unwrap();
    assert_eq!(news.scores.items(), vec![1, 0]);
    assert_eq!(world.scores.items(), vec![1, 0]);
    assert_eq!(world.deleted.items(), vec![1, 3]);
    assert_eq!(world.live, vec![0]);
    assert!(world.bullets.is_empty());
    assert_eq!(world.dead.len(), 1);
    assert_eq!(world.dead[0].player, 1);
    assert_eq!(world.dead[0].since, double(1.0));
    assert_eq!(world.dead[0].respawn_at, double(6.0));
    for ship in world.ships() {
        assert!(!world.deleted.items().contains(&ship.shared.entity_id));
    }
}

#[test]
fn ships_that_meet_both_die_and_nobody_scores() {
    let mut world = duel();
    let mut near = all_far(2, 0);
    near.between_players[0][1] = double(0.001);
    near.between_players[1][0] = double(0.001);
    assert!(world.collide(&near, double(2.0), double(7.0)).is_none());
    assert_eq!(world.scores.items(), vec![0, 0]);
    assert_eq!(world.deleted.items(), vec![0, 1]);
    assert!(world.live.is_empty());
    assert_eq!(world.dead.len(), 2);
    // Nobody is left to be told, so what has happened is kept for later.
    assert!(world.broadcast(double(2.0)).is_none());
    assert_eq!(world.deleted.items(), vec![0, 1]);
}

#[test]
fn own_bullets_do_no_harm() {
    let mut world = duel();
    world.hear(0, ClientMessage::ControllerUpdate(0, FIRING));
    world.steer(&vec![steering(0.0, 0.0), steering(0.5, 0.5)], double(1.0), double(1.2));
    let mut near = all_far(2, 1);
    near.to_bullets[0][0] = double(0.0);
    assert!(world.collide(&near, double(1.0), double(6.0)).is_none());
    assert_eq!(world.live, vec![0, 1]);
    assert_eq!(world.bullets.len(), 1);
    assert!(world.deleted.items().is_empty());
}

#[test]
fn everything_moves_and_bullets_leave() {
    let mut world = duel();
    world.hear(0, ClientMessage::ControllerUpdate(0, FIRING));
    world.hear(0, ClientMessage::ControllerUpdate(1, FIRING));
    world.steer(&vec![steering(0.0, 0.0), steering(0.5, 0.5)], double(1.0), double(1.2));
    assert_eq!(world.bullets.len(), 2);
    let fast = Motion {
        position: point(0.1, 0.1),
        velocity: point(0.7, 0.0),
        speed: double(0.7),
        limited: point(0.6, 0.0),
    };
    world.advance(
        &vec![fast, drifting(0.6, 0.5)],
        &vec![drifting(0.0, 1.1), drifting(0.5, 0.9)],
    );
    let ships = world.ships();
    assert_eq!(ships[0].shared.position, point(0.1, 0.1));
    assert_eq!(ships[0].shared.velocity, point(0.6, 0.0));
    assert_eq!(ships[1].shared.position, point(0.6, 0.5));
    assert_eq!(ships[1].shared.velocity, point(0.1, 0.0));
    assert_eq!(world.bullets.len(), 1);
    assert_eq!(world.bullets[0].shared.entity_id, 5);
    assert_eq!(world.bullets[0].shared.position, point(0.5, 0.9));
    assert!(world.deleted.items().is_empty());
}

#[test]
fn clients_are_told_what_has_happened_once() {
    let mut world = duel();
    let sent = world.broadcast(double(0.1)).unwrap();
    assert_eq!(sent.tick.time, double(0.1));
    let info = sent.tick.info.items();
    assert_eq!(info.iter().map(|(id, _)| *id).collect::<Vec<u32>>(), vec![0, 1]);
    assert_eq!(info[1].1.position, (double(0.5), double(0.5)));
    let changes = sent.add_remove.unwrap();
    assert_eq!(changes.new.items().len(), 2);
    assert!(changes.deleted.items().is_empty());
    let again = world.broadcast(double(0.2)).unwrap();
    assert!(again.add_remove.is_none());
    assert_eq!(again.tick.info.items().len(), 2);
}

#[test]
fn the_steps_of_a_tick_are_taken_in_order() {
    let mut world = World::new(2);
    world.join(2);
    assert_eq!(world.next_step(Step::Release), Step::Steer);
    world.release_due(double(0.1));
    assert_eq!(world.next_step(Step::Release), Step::Spawn);
    assert!(world.try_spawn(point(0.0, 0.0), &vec![], double(0.1)));
    assert_eq!(world.next_step(Step::Spawn), Step::Spawn);
    assert!(world.try_spawn(point(0.5, 0.0), &vec![double(0.25)], double(0.1)));
    let mut taken = vec![Step::Spawn];
    while taken.len() < 10 {
        taken.push(world.next_step(taken[taken.len() - 1]));
    }
    assert_eq!(
        taken,
        vec![
            Step::Spawn,
            Step::Steer,
            Step::Collide,
            Step::Advance,
            Step::Accept,
            Step::Listen,
            Step::Welcome,
            Step::Broadcast,
            Step::Rest,
            Step::Release,
        ]
    );
}

#[test]
fn the_dead_return_in_time_and_not_before() {
    let mut world = duel();
    let _ = world.broadcast(double(0.1));
    let mut near = all_far(2, 0);
    near.between_players[0][1] = double(0.001);
    assert!(world.collide(&near, double(1.0), double(6.0)).is_none());
    assert!(world.live.is_empty());
    world.hear(0, ClientMessage::ControllerUpdate(1, FIRING));
    for now in vec![2.0, 4.0, 5.99] {
        world.release_due(double(now));
        assert_eq!(world.next_step(Step::Release), Step::Steer);
        world.steer(&vec![], double(now), double(now + 0.2));
        assert!(world.live.is_empty());
    }
    world.release_due(double(6.0));
    let mut entered = 0;
    while world.next_step(Step::Spawn) == Step::Spawn {
        let distances = vec![double(1.0); entered];
        assert!(world.try_spawn(point(0.1 * entered as f64, 0.2), &distances, double(6.0)));
        entered += 1;
    }
    assert_eq!(world.live, vec![0, 1]);
    let back = world.players[&1];
    assert_eq!(back.shared.entity_id, 1);
    assert_eq!(back.shared.velocity, Vec2::origin());
    assert_eq!(back.controller, ControllerState::default());
    let told = world.new_objects.items();
    assert_eq!(told.iter().map(|n| (n.id, n.time)).collect::<Vec<_>>(), vec![
        (0, double(6.0)),
        (1, double(6.0)),
    ]);
}

#[test]
fn nothing_is_lost_or_told_twice() {
    let mut world = World::new(2);
    let _ = world.welcome(asks_for(2));
    let mut announced: Vec<u32> = vec![];
    let mut deleted: Vec<u32> = vec![];
    world.release_due(double(0.1));
    assert!(world.try_spawn(point(0.0, 0.0), &vec![], double(0.1)));
    assert!(world.try_spawn(point(0.5, 0.5), &vec![double(0.5)], double(0.1)));
    world.hear(0, ClientMessage::ControllerUpdate(0, FIRING));
    for tick in 1..6 {
        let now = tick as f64;
        let steerings = vec![steering(0.0, 0.0); world.live.len()];
        world.steer(&steerings, double(now), double(now + 0.2));
        let mut distances = all_far(world.live.len(), world.bullets.len());
        if tick == 3 {
            distances.to_bullets[1][0] = double(0.0);
        }
        let _ = world.collide(&distances, double(now), double(now + 5.0));
        if tick % 2 == 1 {
            if let Some(changes) = world.broadcast(double(now)).unwrap().add_remove {
                announced.extend(changes.new.items().iter().map(|n| n.id));
                deleted.extend(changes.deleted.items());
            }
        }
    }
    assert_eq!(announced, vec![0, 1, 2, 4, 6, 8, 10]);
    assert_eq!(deleted, vec![1, 3]);
    assert!(world.new_objects.items().is_empty());
    assert!(world.deleted.items().is_empty());
}

#[test]
fn shots_stay_apart_over_deaths_and_joins() {
    let mut world = duel();
    world.hear(0, ClientMessage::ControllerUpdate(0, FIRING));
    let two = vec![steering(0.0, 0.0), steering(0.5, 0.5)];
    world.steer(&two, double(1.0), double(1.2));
    assert_eq!(world.bullets.len(), 1);
    let mut near = all_far(2, 1);
    near.between_players[0][1] = double(0.0);
    let _ = world.collide(&near, double(1.0), double(1.05));
    world.join(1);
    world.release_due(double(1.1));
    while !world.spawning.is_empty() {
        let distances = vec![double(1.0); world.live.len()];
        assert!(world.try_spawn(point(0.0, 0.0), &distances, double(1.1)));
    }
    world.hear(0, ClientMessage::ControllerUpdate(0, FIRING));
    let three = vec![steering(0.0, 0.0); 3];
    world.steer(&three, double(1.2), double(1.4));
    assert_eq!(world.bullets.len(), 1);
    world.steer(&three, double(1.21), double(1.41));
    assert_eq!(world.bullets.len(), 2);
}

#[test]
fn players_keep_their_team_whoever_joins() {
    let mut world = World::new(3);
    let mut before: Vec<(u64, Team, u32)> = vec![];
    for requested in vec![1, 0, 5, 2, 3] {
        let _ = world.welcome(asks_for(requested));
        for (key, team, id) in &before {
            assert_eq!(world.players[key].shared.owning_team, *team);
            assert_eq!(world.players[key].shared.entity_id, *id);
        }
        let mut sizes = vec![0, 0, 0];
        before.clear();
        for (key, player) in &world.players {
            sizes[player.shared.owning_team.0 as usize] += 1;
            before.push((*key, player.shared.owning_team, player.shared.entity_id));
        }
        assert!(sizes.iter().max().unwrap() - sizes.iter().min().unwrap() <= 1);
    }
    assert_eq!(before.len(), 11);
}

#[test]
fn a_returning_ship_enters_free_and_is_announced_with_the_time() {
    let mut world = duel();
    let mut turned = world.players[&1];
    turned.shared.rotation = double(2.5);
    world.players.insert(1, turned);
    let _ = world.broadcast(double(0.1));
    let mut near = all_far(2, 0);
    near.between_players[0][1] = double(0.001);
    assert!(world.collide(&near, double(1.0), double(6.0)).is_none());
    world.release_due(double(6.0));
    assert!(world.try_spawn(point(0.0, 0.0), &vec![], double(6.0)));
    let waiting = world.spawning[0];
    assert!(!world.try_spawn(point(0.01, 0.0), &vec![double(0.0001)], double(6.0)));
    assert_eq!(world.spawning, vec![waiting]);
    assert!(world.try_spawn(point(0.4, 0.0), &vec![double(0.16)], double(6.0)));
    let told = world.new_objects.items();
    assert_eq!(told.len(), 2);
    for news in told {
        assert_eq!(news.time, double(6.0));
        assert_eq!(news.initial_info.velocity, (double(0.0), double(0.0)));
    }
    assert_eq!(world.players[&1].shared.rotation, double(2.5));
}
