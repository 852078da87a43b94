use not_asteroids::double::Double;
use not_asteroids::entity::{Drawable, GameColor, GamePoly};
use not_asteroids::graveyard::{sort_by_time, take_due, DeadPlayer};
use not_asteroids::lists::{DeletedIds, InfoList, NewObjects, ObjectList, Scores};
use not_asteroids::packets::{NewObject, ObjectInfo};
use not_asteroids::retain::RetainTools;
use not_asteroids::unzip::filter_unzip;

fn double(x: f64) -> Double {
    Double { bits: x.to_bits() }
}

fn info(x: f64) -> ObjectInfo {
    ObjectInfo {
        position: (double(x), double(2.0)),
        velocity: (double(3.0), double(4.0)),
        rotation: double(5.0),
        rotation_speed: double(6.0),
    }
}

fn drawable(team: u8) -> Drawable {
    Drawable {
        should_wrap: true,
        color: GameColor::Team(team),
        poly: GamePoly::Player,
        scale: double(0.05),
    }
}

fn dead(since: f64, player: u64) -> DeadPlayer {
    DeadPlayer { since: double(since), respawn_at: double(since + 5.0), player }
}

#[test]
fn retaining_keeps_order_and_hands_back_the_rest() {
    let mut list = vec![0, 1, 2, 3, 4, 5];
    let gone = list.retain_index(|i: usize| i % 2 == 0);
    assert_eq!(list, vec![0, 2, 4]);
    assert_eq!(gone, vec![3, 1, 5]);
}

#[test]
fn retaining_by_element() {
    let mut list = vec![10, 25, 30, 45];
    let gone = list.retain_return(|x: &mut i32| *x < 28);
    assert_eq!(list, vec![10, 25]);
    assert_eq!(gone, vec![30, 45]);
}

#[test]
fn retaining_by_place_and_element() {
    let mut list = vec![5, 1, 7, 3];
    let gone = list.retain_pair_return(|i: usize, x: &mut usize| *x > i);
    assert_eq!(list, vec![5, 7]);
    assert_eq!(gone, vec![1, 3]);
}

#[test]
fn a_rule_may_change_the_elements() {
    let mut list = vec![1, 2, 3, 4, 5];
    let gone = list.retain_pair_return(|i: usize, x: &mut usize| {
        *x = *x * 10 + i;
        i % 2 == 1
    });
    assert_eq!(list, vec![21, 43]);
    assert_eq!(gone, vec![32, 10, 54]);
    let gone = list.retain_return(|x: &mut usize| {
        *x += 1;
        *x > 40
    });
    assert_eq!(list, vec![44]);
    assert_eq!(gone, vec![22]);
}

#[test]
fn a_rule_is_asked_about_each_element_in_order() {
    let mut list = vec!['a', 'b', 'c', 'd'];
    let mut asked = vec![];
    let _ = list.retain_pair_return(|i: usize, c: &mut char| {
        asked.push((i, *c));
        i != 1
    });
    assert_eq!(asked, vec![(0, 'a'), (1, 'b'), (2, 'c'), (3, 'd')]);
    let mut places = vec![];
    let _ = list.retain_index(|i: usize| {
        places.push(i);
        true
    });
    assert_eq!(places, vec![0, 1, 2]);
    assert_eq!(list, vec!['a', 'c', 'd']);
}

#[test]
fn retaining_everything_changes_nothing() {
    let mut list = vec!['a', 'b', 'c'];
    assert_eq!(list.retain_return(|_c: &mut char| true), Vec::<char>::new());
    assert_eq!(list, vec!['a', 'b', 'c']);
    assert_eq!(list.retain_return(|_c: &mut char| false), vec!['a', 'b', 'c']);
    assert_eq!(list, Vec::<char>::new());
}

#[test]
fn unzipping_keeps_what_is_there() {
    let pairs = vec![(Some(1), None), (None, Some('x')), (Some(2), Some('y')), (None, None)];
    assert_eq!(filter_unzip(pairs), (vec![1, 2], vec!['x', 'y']));
    let none: Vec<(Option<u8>, Option<u8>)> = vec![];
    assert_eq!(filter_unzip(none), (vec![], vec![]));
}

#[test]
fn due_players_are_taken_out() {
    let mut list = vec![dead(0.0, 1), dead(2.0, 2), dead(f64::NEG_INFINITY, 3)];
    let due = take_due(&mut list, double(5.0));
    assert_eq!(list, vec![dead(2.0, 2)]);
    assert_eq!(due, vec![dead(0.0, 1), dead(f64::NEG_INFINITY, 3)]);
}

#[test]
fn the_dead_are_put_in_order_of_time() {
    let mut list = vec![dead(3.0, 1), dead(1.0, 2), dead(3.0, 3), dead(f64::NEG_INFINITY, 4)];
    sort_by_time(&mut list);
    assert_eq!(
        list,
        vec![dead(f64::NEG_INFINITY, 4), dead(1.0, 2), dead(3.0, 1), dead(3.0, 3)]
    );
}

#[test]
fn score_lists_hold_what_they_are_made_of() {
    let long: Vec<u32> = (0..20).collect();
    assert_eq!(Scores::from_items(long.clone()).items(), long);
    assert_eq!(Scores::from_items(vec![]).items(), Vec::<u32>::new());
}

#[test]
fn lists_hold_what_they_are_made_of() {
    let ids: Vec<u32> = (10..30).collect();
    assert_eq!(DeletedIds::from_items(&ids).items(), ids);

    let new: Vec<NewObject> = (0..6)
        .map(|id| NewObject {
            id,
            time: double(1.0),
            drawable: drawable(3),
            initial_info: info(id as f64),
        })
        .collect();
    assert_eq!(NewObjects::from_items(&new).items(), new);

    let objects: Vec<(u32, (Drawable, ObjectInfo))> =
        (0..130).map(|id| (id, (drawable(1), info(id as f64)))).collect();
    assert_eq!(ObjectList::from_items(&objects).items(), objects);

    let places: Vec<(u32, ObjectInfo)> = (0..130).map(|id| (id, info(id as f64))).collect();
    assert_eq!(InfoList::from_items(&places).items(), places);
}
