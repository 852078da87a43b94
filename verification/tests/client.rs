use not_asteroids::client::{ClientDrawable, ClientWorld, Inbox, Offset};
use not_asteroids::controller::{Button, ButtonArgs, ButtonState, ControllerState, Key};
use not_asteroids::double::{Double, Vec2};
use not_asteroids::entity::{Drawable, GameColor, GamePoly};
use not_asteroids::lists::{DeletedIds, InfoList, NewObjects, ObjectList, Scores};
use not_asteroids::packets::{
    AddRemove, ClientHandshake, ClientMessage, NewObject, ObjectInfo, ServerHandshake,
    ServerMessage, Tick, UpdateScore,
};

fn double(x: f64) -> Double {
    Double { bits: x.to_bits() }
}

fn point(x: f64, y: f64) -> Vec2 {
    Vec2 { x: double(x), y: double(y) }
}

fn looks(should_wrap: bool) -> Drawable {
    Drawable {
        should_wrap,
        color: GameColor::White,
        poly: GamePoly::Asteroid(2),
        scale: double(0.05),
    }
}

fn info(x: f64, y: f64) -> ObjectInfo {
    ObjectInfo {
        position: (double(x), double(y)),
        velocity: (double(0.1), double(0.2)),
        rotation: double(0.3),
        rotation_speed: double(0.4),
    }
}

fn object(x: f64, y: f64, should_wrap: bool) -> ClientDrawable {
    ClientDrawable {
        position: point(x, y),
        velocity: point(0.1, 0.2),
        rotation: double(0.3),
        rotation_speed: double(0.4),
        drawable: looks(should_wrap),
    }
}

fn offsets(x: f64, y: f64, should_wrap: bool) -> Vec<(i8, i8)> {
    object(x, y, should_wrap)
        .transformations()
        .items()
        .iter()
        .map(|o: &Offset| (o.x, o.y))
        .collect()
}

fn tick(entries: Vec<(u32, ObjectInfo)>) -> ServerMessage {
    ServerMessage::Tick(Tick { time: double(2.0), info: InfoList::from_items(&entries) })
}

fn greeted() -> ClientWorld {
    let mut client = ClientWorld::new(1);
    let mut inbox = Inbox::new();
    client.receive(
        &mut inbox,
        ServerMessage::Handshake(ServerHandshake {
            objects: ObjectList::from_items(&[
                (4, (looks(true), info(0.1, 0.1))),
                (6, (looks(false), info(0.2, 0.2))),
            ]),
            scores: Scores::from_items(vec![3, 1]),
        }),
    );
    client
}

fn sorted_ids(client: &ClientWorld) -> Vec<u32> {
    let mut ids = client.shown_ids();
    ids.sort();
    ids
}

#[test]
fn an_object_is_drawn_where_it_is() {
    assert_eq!(offsets(0.0, 0.0, true), vec![(0, 0)]);
    assert_eq!(offsets(0.95, -0.95, true), vec![(0, 0)]);
    assert_eq!(offsets(0.99, 0.99, false), vec![(0, 0)]);
}

#[test]
fn an_object_that_crosses_an_edge_is_drawn_on_the_far_side() {
    assert_eq!(offsets(-0.96, 0.0, true), vec![(0, 0), (2, 0)]);
    assert_eq!(offsets(0.96, 0.0, true), vec![(0, 0), (-2, 0)]);
    assert_eq!(offsets(0.0, -0.96, true), vec![(0, 0), (0, 2)]);
    assert_eq!(offsets(0.0, 0.96, true), vec![(0, 0), (0, -2)]);
    assert_eq!(offsets(-0.97, 0.98, true), vec![(0, 0), (2, 0), (0, -2)]);
}

#[test]
fn a_new_client_knows_nothing() {
    let client = ClientWorld::new(3);
    assert_eq!(client.controllers, vec![ControllerState::default(); 3]);
    assert!(client.entities.is_empty());
    assert!(client.scoreboard().is_empty());
    assert_eq!(
        client.greeting(),
        ClientMessage::Handshake(ClientHandshake { requested_players: 3 })
    );
}

#[test]
fn controls_are_reported_for_each_player() {
    let mut client = ClientWorld::new(2);
    client.press(&ButtonArgs {
        state: ButtonState::Press,
        button: Button::Keyboard(Key::Space),
    });
    let firing = ControllerState { fire: true, ..ControllerState::default() };
    assert_eq!(
        client.reports(),
        vec![
            ClientMessage::ControllerUpdate(0, firing),
            ClientMessage::ControllerUpdate(1, firing),
        ]
    );
    client.press(&ButtonArgs {
        state: ButtonState::Release,
        button: Button::Keyboard(Key::Space),
    });
    assert_eq!(client.controllers, vec![ControllerState::default(); 2]);
}

#[test]
fn the_answer_of_the_server_is_shown() {
    let client = greeted();
    assert_eq!(sorted_ids(&client), vec![4, 6]);
    assert_eq!(client.entities[&4], object(0.1, 0.1, true));
    assert_eq!(client.entities[&6], object(0.2, 0.2, false));
    assert_eq!(client.scoreboard(), vec![3, 1]);
}

#[test]
fn scores_are_updated_at_once() {
    let mut client = greeted();
    let mut inbox = Inbox::new();
    client.receive(
        &mut inbox,
        ServerMessage::UpdateScore(UpdateScore { scores: Scores::from_items(vec![4, 1]) }),
    );
    assert_eq!(client.scoreboard(), vec![4, 1]);
}

#[test]
fn only_teams_with_a_colour_are_on_the_board() {
    let mut client = ClientWorld::new(1);
    let mut inbox = Inbox::new();
    client.receive(
        &mut inbox,
        ServerMessage::UpdateScore(UpdateScore {
            scores: Scores::from_items((0..12).collect()),
        }),
    );
    assert_eq!(client.scoreboard(), (0..10).collect::<Vec<u32>>());
}

#[test]
fn a_tick_moves_what_is_shown_and_nothing_else() {
    let mut client = greeted();
    let mut inbox = Inbox::new();
    client.receive(&mut inbox, tick(vec![(4, info(0.7, 0.7)), (99, info(0.0, 0.0))]));
    client.settle(inbox, &vec![]);
    assert_eq!(sorted_ids(&client), vec![4, 6]);
    assert_eq!(client.entities[&4], object(0.7, 0.7, true));
    assert_eq!(client.entities[&6], object(0.2, 0.2, false));
}

#[test]
fn only_the_last_tick_counts() {
    let mut client = greeted();
    let mut inbox = Inbox::new();
    client.receive(&mut inbox, tick(vec![(4, info(0.7, 0.7))]));
    client.receive(&mut inbox, tick(vec![(6, info(0.8, 0.8))]));
    client.settle(inbox, &vec![]);
    assert_eq!(client.entities[&4], object(0.1, 0.1, true));
    assert_eq!(client.entities[&6], object(0.8, 0.8, false));
}

#[test]
fn objects_go_at_once_and_come_with_a_tick() {
    let mut client = greeted();
    let mut inbox = Inbox::new();
    let arrival = NewObject {
        id: 9,
        time: double(1.0),
        drawable: looks(false),
        initial_info: info(0.0, 0.0),
    };
    client.receive(
        &mut inbox,
        ServerMessage::AddRemove(AddRemove {
            new: NewObjects::from_items(&[arrival]),
            deleted: DeletedIds::from_items(&[4, 77]),
        }),
    );
    client.settle(inbox, &vec![]);
    assert_eq!(sorted_ids(&client), vec![6]);
    assert_eq!(client.new.items(), vec![arrival]);

    let mut later = Inbox::new();
    client.receive(&mut later, tick(vec![(9, info(0.5, 0.5))]));
    client.settle(later, &vec![point(0.1, 0.2)]);
    assert_eq!(sorted_ids(&client), vec![6, 9]);
    assert_eq!(client.entities[&9], object(0.1, 0.2, false));
    assert!(client.new.items().is_empty());
}

#[test]
fn objects_drift_between_ticks() {
    let mut client = greeted();
    client.drift(4, point(0.3, 0.4), double(1.5));
    client.drift(55, point(0.3, 0.4), double(1.5));
    assert_eq!(sorted_ids(&client), vec![4, 6]);
    assert_eq!(
        client.entities[&4],
        ClientDrawable { rotation: double(1.5), ..object(0.3, 0.4, true) }
    );
}

#[test]
fn an_update_moves_every_object_once() {
    let mut client = greeted();
    let moved = client
        .shown_ids()
        .into_iter()
        .map(|id| (id, point(id as f64, 0.5), double(id as f64 + 0.25)))
        .collect();
    client.drift_all(&moved);
    assert_eq!(sorted_ids(&client), vec![4, 6]);
    assert_eq!(
        client.entities[&4],
        ClientDrawable { rotation: double(4.25), ..object(4.0, 0.5, true) }
    );
    assert_eq!(
        client.entities[&6],
        ClientDrawable { rotation: double(6.25), ..object(6.0, 0.5, false) }
    );
    client.drift_all(&vec![(55, point(0.0, 0.0), double(0.0))]);
    assert_eq!(sorted_ids(&client), vec![4, 6]);
}
