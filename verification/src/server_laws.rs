//! What the steps of a tick do, said of the state before and the state after alone.
use crate::double::{Double, Vec2};
use crate::entity::{Bullet, Drawable, GameColor, GameEntity, GamePoly, Player, Team};
use crate::lobby::taken_in;
use crate::packets::{NewObject, ObjectInfo};
use crate::retain::{removed, removed_were_rejected};
use crate::spawn::{lined_up, newcomers_are_due, tried_to_enter};
use crate::steering::{bullets_fired, controls_acted, shots_announced, shots_fired, Steering};
use crate::tool_laws::{
    are_the_chosen, chosen_places, elements_at, lemma_chosen_places, lemma_kept_is_chosen,
};
use crate::world::World;
use vstd::prelude::*;

verus! {

/// Whether two objects are of different teams and close enough for a ship to be hit.
pub open spec fn in_reach(one: Team, other: Team, distance_squared: Double) -> bool {
    one.0 != other.0 && distance_squared.below(Double { bits: 0x3f74_1205_bc01_a36d })
}

/// The team of the ship at a place of the list of live ships.
pub open spec fn team_at(world: World, i: int) -> Team {
    world.players@[world.live@[i]].shared.owning_team
}

/// A ship enters exactly where no ship on the field, whichever it is, is of another team and
/// closer than the radius of a ship. Where it does not enter, nothing changes.
pub proof fn ships_enter_clear_of_every_enemy(
    before: World,
    position: Vec2,
    distances: Seq<Double>,
    now: Double,
    placed: bool,
    after: World,
)
    requires
        tried_to_enter(before, position, distances, now, placed, after),
    ensures
        placed <==> forall|i: int|
            0 <= i < before.live@.len() ==> {
                ||| before.players@[#[trigger] before.live@[i]].shared.owning_team.0
                    == before.players@[before.spawning@[0]].shared.owning_team.0
                ||| !distances[i].below(Double { bits: 0x3f74_1205_bc01_a36d })
            },
        !placed ==> after == before,
{
    let key = before.spawning@[0];
    if placed {
        assert forall|i: int| 0 <= i < before.live@.len() implies {
            ||| before.players@[#[trigger] before.live@[i]].shared.owning_team.0
                == before.players@[key].shared.owning_team.0
            ||| !distances[i].below(Double { bits: 0x3f74_1205_bc01_a36d })
        } by {}
    } else {
        let i = choose|i: int|
            0 <= i < before.live@.len() && crate::entity::touches(
                before.players@[#[trigger] before.live@[i]].shared,
                Double { bits: 0x3f74_1205_bc01_a36d },
                crate::spawn::respawned(before.players@[key], position).shared,
                distances[i],
            );
        assert(before.players@[before.live@[i]].shared.owning_team.0
            != before.players@[key].shared.owning_team.0);
    }
}

/// A ship that enters stands at its place, at rest and with no control held down; its id, team,
/// rotation and next shot are as they were. It is the last of the live ships and no longer in
/// line, the clients are told exactly what it is and where, and nothing else changes.
pub proof fn a_ship_that_enters_is_fresh(
    before: World,
    position: Vec2,
    distances: Seq<Double>,
    now: Double,
    after: World,
)
    requires
        before.spawning@.len() > 0,
        tried_to_enter(before, position, distances, now, true, after),
    ensures
        ({
            let key = before.spawning@[0];
            let late = before.players@[key];
            let ship = after.players@[key];
            &&& after.players@ == before.players@.insert(key, ship)
            &&& ship.shared.entity_id == late.shared.entity_id
            &&& ship.shared.owning_team == late.shared.owning_team
            &&& ship.shared.rotation == late.shared.rotation
            &&& ship.shared.position == position
            &&& ship.shared.velocity.x.bits == 0 && ship.shared.velocity.y.bits == 0
            &&& ship.acceleration.x.bits == 0 && ship.acceleration.y.bits == 0
            &&& ship.fire_ready == late.fire_ready
            &&& !ship.controller.up && !ship.controller.down && !ship.controller.left
            &&& !ship.controller.right && !ship.controller.fire
            &&& after.live@ == before.live@ + seq![key]
            &&& before.spawning@ == seq![key] + after.spawning@
            &&& after.new_objects@ == before.new_objects@ + seq![
                NewObject {
                    id: late.shared.entity_id,
                    time: now,
                    drawable: Drawable {
                        should_wrap: true,
                        color: GameColor::Team(late.shared.owning_team.0),
                        poly: GamePoly::Player,
                        scale: Double { bits: 0x3fa9_9999_9999_999a },
                    },
                    initial_info: ObjectInfo {
                        position: (position.x, position.y),
                        velocity: (Double { bits: 0 }, Double { bits: 0 }),
                        rotation: late.shared.rotation,
                        rotation_speed: Double { bits: 0 },
                    },
                },
            ]
            &&& after.dead@ == before.dead@
            &&& after.bullets@ == before.bullets@
            &&& after.scores@ == before.scores@
            &&& after.deleted@ == before.deleted@
            &&& after.entity_ids.0 == before.entity_ids.0
            &&& after.client_ids.0 == before.client_ids.0
            &&& after.num_teams == before.num_teams
        }),
{
    let key = before.spawning@[0];
    assert(before.spawning@ =~= seq![key] + after.spawning@);
    assert(after.live@ =~= before.live@ + seq![key]);
    assert(after.new_objects@ =~= before.new_objects@ + seq![after.new_objects@.last()]);
    assert(after.players@ =~= before.players@.insert(key, after.players@[key]));
}

/// Exactly the dead players whose time is not yet to come are lined up, behind those in line
/// already; the others stay dead, in their order. Nothing else changes.
pub proof fn exactly_the_due_are_lined_up(before: World, now: Double, after: World)
    requires
        lined_up(before, now, after),
    ensures
        exists|places: Seq<int>|
            {
                &&& are_the_chosen(
                    places,
                    Seq::new(
                        before.dead@.len(),
                        |i: int| now.below(before.dead@[i].respawn_at),
                    ),
                )
                &&& after.dead@ == #[trigger] elements_at(before.dead@, places)
            },
        after.spawning@.len() + after.dead@.len() == before.spawning@.len() + before.dead@.len(),
        after.spawning@.take(before.spawning@.len() as int) == before.spawning@,
        forall|i: int|
            0 <= i < before.dead@.len() && !now.below((#[trigger] before.dead@[i]).respawn_at)
                ==> after.spawning@.skip(before.spawning@.len() as int).contains(
                before.dead@[i].player,
            ),
        forall|k: int|
            before.spawning@.len() <= k < after.spawning@.len() ==> exists|i: int|
                {
                    &&& 0 <= i < before.dead@.len()
                    &&& (#[trigger] before.dead@[i]).player == #[trigger] after.spawning@[k]
                    &&& !now.below(before.dead@[i].respawn_at)
                },
        after.players@ == before.players@,
        after.live@ == before.live@,
        after.bullets@ == before.bullets@,
        after.scores@ == before.scores@,
        after.new_objects@ == before.new_objects@,
        after.deleted@ == before.deleted@,
        after.entity_ids.0 == before.entity_ids.0,
        after.client_ids.0 == before.client_ids.0,
        after.num_teams == before.num_teams,
{
    let keep = Seq::new(before.dead@.len(), |i: int| now.below(before.dead@[i].respawn_at));
    assert(crate::graveyard::waiting(before.dead@, now) =~= keep);
    let due = removed(before.dead@, keep);
    lemma_chosen_places(keep);
    lemma_kept_is_chosen(before.dead@, keep);
    assert(after.dead@ == elements_at(before.dead@, chosen_places(keep)));
    crate::retain::exactly_the_rejected_leave(before.dead@, keep);
    removed_were_rejected(before.dead@, keep);
    let keys = crate::graveyard::dead_keys(due);
    assert(after.spawning@.take(before.spawning@.len() as int) =~= before.spawning@);
    assert(after.spawning@.skip(before.spawning@.len() as int) =~= keys);
    assert forall|i: int|
        0 <= i < before.dead@.len() && !now.below(
            (#[trigger] before.dead@[i]).respawn_at,
        ) implies keys.contains(before.dead@[i].player) by {
        crate::history::lemma_accepted_stay(before.dead@, keep, i);
        let k = choose|k: int| 0 <= k < due.len() && due[k] == before.dead@[i];
        assert(keys[k] == before.dead@[i].player);
    }
    assert forall|k: int| before.spawning@.len() <= k < after.spawning@.len() implies exists|
        i: int,
    |
        {
            &&& 0 <= i < before.dead@.len()
            &&& (#[trigger] before.dead@[i]).player == #[trigger] after.spawning@[k]
            &&& !now.below(before.dead@[i].respawn_at)
        } by {
        let m = k - before.spawning@.len();
        assert(after.spawning@[k] == keys[m]);
        assert(keys[m] == due[m].player);
        let j = choose|j: int| 0 <= j < before.dead@.len() && !keep[j] && before.dead@[j] == due[m];
        assert(before.dead@[j].player == after.spawning@[k]);
    }
}

/// Every player of a client that has been taken in, whichever number the client has, is among
/// the dead, with a time of the next ship that no time is below; so the next time that players
/// are lined up, at whatever time, all of them are.
pub proof fn newcomers_play_at_once(
    before: World,
    n: nat,
    joined: World,
    now: Double,
    after: World,
    i: int,
)
    requires
        taken_in(before, n, joined),
        lined_up(joined, now, after),
        0 <= i < n <= u32::MAX,
    ensures
        ({
            let key = (before.client_ids.0 * 0x1_0000_0000 + i) as u64;
            let d = joined.dead@[before.dead@.len() + i];
            &&& joined.dead@.len() == before.dead@.len() + n
            &&& joined.dead@.take(before.dead@.len() as int) == before.dead@
            &&& d.player == key
            &&& forall|time: Double| !(#[trigger] time.below(d.respawn_at))
            &&& after.spawning@.contains(key)
        }),
{
    let key = (before.client_ids.0 * 0x1_0000_0000 + i) as u64;
    let d = joined.dead@[before.dead@.len() + i];
    assert(joined.dead@.take(before.dead@.len() as int) =~= before.dead@);
    assert forall|time: Double| !(#[trigger] time.below(d.respawn_at)) by {
        if !time.is_nan() {
            newcomers_are_due(time);
        }
    }
    exactly_the_due_are_lined_up(joined, now, after);
    let place = before.dead@.len() + i;
    assert(!now.below(joined.dead@[place].respawn_at));
    let rest = after.spawning@.skip(joined.spawning@.len() as int);
    let k = choose|k: int| 0 <= k < rest.len() && rest[k] == joined.dead@[place].player;
    assert(after.spawning@[joined.spawning@.len() + k] == key);
}

/// After the controls have acted, every live ship stands at the place that was handed in for it
/// and has the rotation and the acceleration that were handed in for it. It is otherwise as it
/// was, but for its next shot: that is put off where it fires, which it does exactly where its
/// trigger is held down and it is ready. Nobody else is changed.
pub proof fn ships_obey_their_steering(
    before: World,
    steerings: Seq<Steering>,
    now: Double,
    ready_again: Double,
    after: World,
)
    requires
        controls_acted(before, steerings, now, ready_again, after),
    ensures
        forall|i: int|
            0 <= i < before.live@.len() ==> {
                let old_ship = before.players@[#[trigger] before.live@[i]];
                let ship = after.players@[before.live@[i]];
                &&& ship.shared.position == steerings[i].position
                &&& ship.shared.rotation == steerings[i].rotation
                &&& ship.acceleration == steerings[i].acceleration
                &&& ship.shared.entity_id == old_ship.shared.entity_id
                &&& ship.shared.owning_team == old_ship.shared.owning_team
                &&& ship.shared.velocity == old_ship.shared.velocity
                &&& ship.controller == old_ship.controller
                &&& old_ship.controller.fire && old_ship.fire_ready.below(now)
                    ==> ship.fire_ready == ready_again
                &&& !(old_ship.controller.fire && old_ship.fire_ready.below(now))
                    ==> ship.fire_ready == old_ship.fire_ready
            },
        after.players@.dom() == before.players@.dom(),
        forall|key: u64| #[trigger]
            before.players@.contains_key(key) && !before.live@.contains(key)
                ==> after.players@[key] == before.players@[key],
        after.live@ == before.live@,
        after.spawning@ == before.spawning@,
        after.dead@ == before.dead@,
        after.scores@ == before.scores@,
        after.deleted@ == before.deleted@,
        after.client_ids.0 == before.client_ids.0,
        after.num_teams == before.num_teams,
{
}

/// Where the places that are handed in are on the field, every live ship is on the field once
/// the controls have acted: between -1 and 1 both ways.
pub proof fn ships_come_back_onto_the_field(
    before: World,
    steerings: Seq<Steering>,
    now: Double,
    ready_again: Double,
    after: World,
    i: int,
)
    requires
        controls_acted(before, steerings, now, ready_again, after),
        0 <= i < before.live@.len(),
        ({
            let (low, high) = (
                Double { bits: 0xbff0_0000_0000_0000 },
                Double { bits: 0x3ff0_0000_0000_0000 },
            );
            let p = steerings[i].position;
            &&& !p.x.below(low) && !high.below(p.x)
            &&& !p.y.below(low) && !high.below(p.y)
        }),
    ensures
        ({
            let (low, high) = (
                Double { bits: 0xbff0_0000_0000_0000 },
                Double { bits: 0x3ff0_0000_0000_0000 },
            );
            let p = after.players@[after.live@[i]].shared.position;
            &&& !p.x.below(low) && !high.below(p.x)
            &&& !p.y.below(low) && !high.below(p.y)
        }),
{
    ships_obey_their_steering(before, steerings, now, ready_again, after);
    let key = before.live@[i];
}

/// For each live ship, whether it fires: its trigger is held down, and it is ready.
pub open spec fn triggers(world: World, now: Double) -> Seq<bool> {
    Seq::new(
        world.live@.len(),
        |i: int|
            {
                let ship = world.players@[world.live@[i]];
                ship.controller.fire && ship.fire_ready.below(now)
            },
    )
}

proof fn lemma_shots(
    before: World,
    steerings: Seq<Steering>,
    now: Double,
    first_id: int,
    n: nat,
)
    requires
        n <= before.live@.len(),
    ensures
        ({
            let ships = crate::world::ships_of(before.players@, before.live@);
            let who = chosen_places(triggers(before, now).take(n as int));
            let fired = bullets_fired(ships, steerings, now, first_id, n);
            let told = shots_announced(ships, steerings, now, first_id, n);
            &&& fired.len() == who.len() == told.len() == shots_fired(ships, now, n)
            &&& forall|k: int|
                0 <= k < who.len() ==> {
                    let from = before.players@[before.live@[who[k]]];
                    &&& #[trigger] fired[k] == the_bullet(
                        (first_id + 2 * k + 1) as u32,
                        from.shared.owning_team,
                        steerings[who[k]],
                    )
                }
            &&& forall|k: int|
                0 <= k < who.len() ==> {
                    let from = before.players@[before.live@[who[k]]];
                    &&& #[trigger] told[k] == the_news(
                        (first_id + 2 * k) as u32,
                        from.shared.owning_team,
                        steerings[who[k]],
                        now,
                    )
                }
        }),
    decreases n,
{
    let ships = crate::world::ships_of(before.players@, before.live@);
    let all = triggers(before, now);
    let chosen = all.take(n as int);
    if n > 0 {
        lemma_shots(before, steerings, now, first_id, (n - 1) as nat);
        assert(chosen.drop_last() =~= all.take(n - 1));
        lemma_chosen_places(chosen.drop_last());
        assert(ships[n - 1] == before.players@[before.live@[n - 1]]);
        let who = chosen_places(chosen);
        let earlier = chosen_places(all.take(n - 1));
        let fired = bullets_fired(ships, steerings, now, first_id, n);
        let told = shots_announced(ships, steerings, now, first_id, n);
        let fired_before = bullets_fired(ships, steerings, now, first_id, (n - 1) as nat);
        let told_before = shots_announced(ships, steerings, now, first_id, (n - 1) as nat);
        assert forall|k: int| 0 <= k < who.len() implies {
            let from = before.players@[before.live@[who[k]]];
            &&& #[trigger] fired[k] == the_bullet(
                (first_id + 2 * k + 1) as u32,
                from.shared.owning_team,
                steerings[who[k]],
            )
        } by {
            if k < earlier.len() {
                assert(who[k] == earlier[k]);
                assert(fired[k] == fired_before[k]);
            }
        }
        assert forall|k: int| 0 <= k < who.len() implies {
            let from = before.players@[before.live@[who[k]]];
            &&& #[trigger] told[k] == the_news(
                (first_id + 2 * k) as u32,
                from.shared.owning_team,
                steerings[who[k]],
                now,
            )
        } by {
            if k < earlier.len() {
                assert(who[k] == earlier[k]);
                assert(told[k] == told_before[k]);
            }
        }
    } else {
        assert(chosen =~= Seq::empty());
    }
}

/// A bullet of a team at the muzzle that was handed in.
pub open spec fn the_bullet(id: u32, team: Team, steering: Steering) -> Bullet {
    Bullet {
        shared: GameEntity {
            entity_id: id,
            owning_team: team,
            position: steering.muzzle_position,
            velocity: steering.muzzle_velocity,
            rotation: Double { bits: 0 },
        },
    }
}

/// What the clients are told of a bullet of a team at the muzzle that was handed in.
pub open spec fn the_news(id: u32, team: Team, steering: Steering, now: Double) -> NewObject {
    NewObject {
        id,
        time: now,
        drawable: Drawable {
            should_wrap: false,
            color: GameColor::Team(team.0),
            poly: GamePoly::Bullet,
            scale: Double { bits: 0x3f94_7ae1_47ae_147b },
        },
        initial_info: ObjectInfo {
            position: (steering.muzzle_position.x, steering.muzzle_position.y),
            velocity: (steering.muzzle_velocity.x, steering.muzzle_velocity.y),
            rotation: Double { bits: 0 },
            rotation_speed: Double { bits: 0 },
        },
    }
}

/// There are as many shots as there are live ships whose trigger is held down and that are ready.
pub proof fn shots_are_counted(world: World, now: Double)
    ensures
        exists|who: Seq<int>|
            {
                &&& #[trigger] are_the_chosen(who, triggers(world, now))
                &&& shots_fired(
                    crate::world::ships_of(world.players@, world.live@),
                    now,
                    world.live@.len(),
                ) == who.len()
            },
{
    let none = Seq::new(
        world.live@.len(),
        |i: int|
            Steering {
                rotation: Double { bits: 0 },
                acceleration: Vec2::origin(),
                position: Vec2::origin(),
                muzzle_position: Vec2::origin(),
                muzzle_velocity: Vec2::origin(),
            },
    );
    lemma_shots(world, none, now, 0, world.live@.len());
    assert(triggers(world, now).take(world.live@.len() as int) =~= triggers(world, now));
    lemma_chosen_places(triggers(world, now));
    assert(are_the_chosen(chosen_places(triggers(world, now)), triggers(world, now)));
}

/// Exactly the ships that fire put a bullet on the field, one each and in their order: of the
/// ship's team, at the ship's muzzle, and under fresh ids. The clients are told of each of them.
/// The bullets and the news that were there before stay.
pub proof fn exactly_the_firing_ships_shoot(
    before: World,
    steerings: Seq<Steering>,
    now: Double,
    ready_again: Double,
    after: World,
)
    requires
        controls_acted(before, steerings, now, ready_again, after),
    ensures
        exists|who: Seq<int>|
            {
                &&& #[trigger] are_the_chosen(who, triggers(before, now))
                &&& after.bullets@.len() == before.bullets@.len() + who.len()
                &&& after.new_objects@.len() == before.new_objects@.len() + who.len()
                &&& after.entity_ids.0 == before.entity_ids.0 + 2 * who.len()
                &&& forall|k: int|
                    0 <= k < who.len() ==> #[trigger] after.bullets@[before.bullets@.len() + k]
                        == the_bullet(
                        (before.entity_ids.0 + 2 * k + 1) as u32,
                        before.players@[before.live@[who[k]]].shared.owning_team,
                        steerings[who[k]],
                    )
                &&& forall|k: int|
                    0 <= k < who.len()
                        ==> #[trigger] after.new_objects@[before.new_objects@.len() + k]
                        == the_news(
                        (before.entity_ids.0 + 2 * k) as u32,
                        before.players@[before.live@[who[k]]].shared.owning_team,
                        steerings[who[k]],
                        now,
                    )
            },
        after.bullets@.take(before.bullets@.len() as int) == before.bullets@,
        after.new_objects@.take(before.new_objects@.len() as int) == before.new_objects@,
{
    let n = before.live@.len();
    let first_id = before.entity_ids.0 as int;
    let ships = crate::world::ships_of(before.players@, before.live@);
    let fired = bullets_fired(ships, steerings, now, first_id, n);
    let told = shots_announced(ships, steerings, now, first_id, n);
    lemma_shots(before, steerings, now, first_id, n);
    assert(triggers(before, now).take(n as int) =~= triggers(before, now));
    lemma_chosen_places(triggers(before, now));
    let who = chosen_places(triggers(before, now));
    assert(after.bullets@.take(before.bullets@.len() as int) =~= before.bullets@);
    assert(after.new_objects@.take(before.new_objects@.len() as int) =~= before.new_objects@);
    assert forall|k: int| 0 <= k < who.len() implies #[trigger] after.bullets@[before.bullets@.len()
        + k] == the_bullet(
        (before.entity_ids.0 + 2 * k + 1) as u32,
        before.players@[before.live@[who[k]]].shared.owning_team,
        steerings[who[k]],
    ) by {
        assert(after.bullets@[before.bullets@.len() + k] == fired[k]);
    }
    assert forall|k: int|
        0 <= k < who.len() implies #[trigger] after.new_objects@[before.new_objects@.len() + k]
        == the_news(
        (before.entity_ids.0 + 2 * k) as u32,
        before.players@[before.live@[who[k]]].shared.owning_team,
        steerings[who[k]],
        now,
    ) by {
        assert(after.new_objects@[before.new_objects@.len() + k] == told[k]);
    }
    assert(are_the_chosen(who, triggers(before, now)));
}

} // verus!
