//! How the field moves and what the clients are told of it, said object by object.
use crate::double::{Double, Vec2};
use crate::entity::{Bullet, Drawable, GameColor, GameEntity, GamePoly};
use crate::motion::{everything_moved, moved_bullets, on_field, Motion};
use crate::packets::{ObjectInfo, ServerHandshake};
use crate::report::{clients_told, tells_everything, Broadcast};
use crate::tool_laws::{are_the_chosen, chosen_places, lemma_chosen_places, lemma_kept_is_chosen};
use crate::world::World;
use vstd::prelude::*;

verus! {

/// Whether a place is between -1 and 1 both ways, or not to be compared with them.
pub open spec fn is_inside(place: Vec2) -> bool {
    let low = Double { bits: 0xbff0_0000_0000_0000 };
    let high = Double { bits: 0x3ff0_0000_0000_0000 };
    &&& !place.x.below(low)
    &&& !high.below(place.x)
    &&& !place.y.below(low)
    &&& !high.below(place.y)
}

/// For each motion, whether it ends on the field.
pub open spec fn ends_inside(motions: Seq<Motion>) -> Seq<bool> {
    Seq::new(motions.len(), |i: int| is_inside(motions[i].position))
}

/// Every live ship goes where its motion takes it. It has the velocity of its motion, or the
/// limited one where its speed exceeds 0.6, and is otherwise as it was. Nobody else moves.
pub proof fn every_live_ship_moves(
    before: World,
    ships: Seq<Motion>,
    bullets: Seq<Motion>,
    after: World,
)
    requires
        everything_moved(before, ships, bullets, after),
    ensures
        forall|i: int|
            0 <= i < before.live@.len() ==> {
                let was = before.players@[#[trigger] before.live@[i]];
                let is = after.players@[before.live@[i]];
                let fast = (Double { bits: 0x3fe3_3333_3333_3333 }).below(ships[i].speed);
                &&& is.shared.position == ships[i].position
                &&& fast ==> is.shared.velocity == ships[i].limited
                &&& !fast ==> is.shared.velocity == ships[i].velocity
                &&& is.shared.entity_id == was.shared.entity_id
                &&& is.shared.owning_team == was.shared.owning_team
                &&& is.shared.rotation == was.shared.rotation
                &&& is.controller == was.controller
                &&& is.fire_ready == was.fire_ready
                &&& is.acceleration == was.acceleration
            },
        after.players@.dom() == before.players@.dom(),
        forall|key: u64| #[trigger]
            before.players@.contains_key(key) && !before.live@.contains(key)
                ==> after.players@[key] == before.players@[key],
        after.live@ == before.live@,
        after.spawning@ == before.spawning@,
        after.dead@ == before.dead@,
        after.scores@ == before.scores@,
        after.new_objects@ == before.new_objects@,
        after.deleted@ == before.deleted@,
        after.entity_ids.0 == before.entity_ids.0,
        after.client_ids.0 == before.client_ids.0,
        after.num_teams == before.num_teams,
{
}

/// Exactly the bullets whose motion ends on the field stay, in their order. Each of them is where
/// its motion takes it and is otherwise as it was, its velocity too, however fast it is.
pub proof fn bullets_fly_until_they_leave(
    before: World,
    ships: Seq<Motion>,
    bullets: Seq<Motion>,
    after: World,
)
    requires
        everything_moved(before, ships, bullets, after),
        bullets.len() == before.bullets@.len(),
    ensures
        exists|places: Seq<int>|
            {
                &&& #[trigger] are_the_chosen(places, ends_inside(bullets))
                &&& after.bullets@.len() == places.len()
                &&& forall|k: int|
                    0 <= k < places.len() ==> {
                        let was = before.bullets@[places[k]].shared;
                        let is = (#[trigger] after.bullets@[k]).shared;
                        &&& is.position == bullets[places[k]].position
                        &&& is.velocity == was.velocity
                        &&& is.rotation == was.rotation
                        &&& is.entity_id == was.entity_id
                        &&& is.owning_team == was.owning_team
                    }
            },
{
    let all = moved_bullets(before.bullets@, bullets);
    let keep = ends_inside(bullets);
    assert(on_field(all) =~= keep);
    lemma_chosen_places(keep);
    lemma_kept_is_chosen(all, keep);
    let places = chosen_places(keep);
    assert(are_the_chosen(places, ends_inside(bullets)));
    assert forall|k: int| 0 <= k < places.len() implies {
        let was = before.bullets@[places[k]].shared;
        let is = (#[trigger] after.bullets@[k]).shared;
        &&& is.position == bullets[places[k]].position
        &&& is.velocity == was.velocity
        &&& is.rotation == was.rotation
        &&& is.entity_id == was.entity_id
        &&& is.owning_team == was.owning_team
    } by {
        assert(0 <= places[k] < all.len());
        assert(after.bullets@[k] == all[places[k]]);
    }
}

/// Whether a description says where an entity is and how it moves, and that it does not turn.
pub open spec fn says_where(info: ObjectInfo, entity: GameEntity) -> bool {
    &&& info.position.0 == entity.position.x
    &&& info.position.1 == entity.position.y
    &&& info.velocity.0 == entity.velocity.x
    &&& info.velocity.1 == entity.velocity.y
    &&& info.rotation == entity.rotation
    &&& info.rotation_speed.bits == 0
}

/// Whether looks are those of a ship of a team.
pub open spec fn looks_like_a_ship(drawable: Drawable, entity: GameEntity) -> bool {
    &&& drawable.should_wrap
    &&& drawable.color == GameColor::Team(entity.owning_team.0)
    &&& drawable.poly == GamePoly::Player
    &&& drawable.scale.bits == 0x3fa9_9999_9999_999a
}

/// Whether looks are those of a bullet of a team.
pub open spec fn looks_like_a_bullet(drawable: Drawable, entity: GameEntity) -> bool {
    &&& !drawable.should_wrap
    &&& drawable.color == GameColor::Team(entity.owning_team.0)
    &&& drawable.poly == GamePoly::Bullet
    &&& drawable.scale.bits == 0x3f94_7ae1_47ae_147b
}

/// A new client is told of every live ship, in order, then of every bullet, in order, each with
/// its id, place, motion and looks, and of the scores as they are.
pub proof fn new_clients_are_told_everything(world: World, answer: ServerHandshake)
    requires
        tells_everything(world, answer),
    ensures
        ({
            let objects = answer.objects@;
            let ships = world.live@.len();
            &&& objects.len() == ships + world.bullets@.len()
            &&& forall|i: int|
                0 <= i < ships ==> {
                    let ship = world.players@[world.live@[i]].shared;
                    &&& (#[trigger] objects[i]).0 == ship.entity_id
                    &&& looks_like_a_ship(objects[i].1.0, ship)
                    &&& says_where(objects[i].1.1, ship)
                }
            &&& forall|i: int|
                ships <= i < objects.len() ==> {
                    let bullet = world.bullets@[i - ships].shared;
                    &&& (#[trigger] objects[i]).0 == bullet.entity_id
                    &&& looks_like_a_bullet(objects[i].1.0, bullet)
                    &&& says_where(objects[i].1.1, bullet)
                }
            &&& answer.scores@ == world.scores@
        }),
{
}

/// While there is a live ship the clients are told, with the time, where every live ship is, in
/// order, then where every bullet is, in order; and, exactly where something has appeared or
/// gone, all of that in order. Once told, nothing is kept. While there is no live ship they are
/// told nothing, and everything is kept. Nothing else changes.
pub proof fn clients_are_told_everything_once(
    before: World,
    now: Double,
    messages: Option<Broadcast>,
    after: World,
)
    requires
        clients_told(before, now, messages, after),
    ensures
        messages is Some <==> before.live@.len() > 0,
        messages matches Some(sent) ==> {
            let info = sent.tick.info@;
            let ships = before.live@.len();
            &&& sent.tick.time == now
            &&& info.len() == ships + before.bullets@.len()
            &&& forall|i: int|
                0 <= i < ships ==> {
                    let ship = before.players@[before.live@[i]].shared;
                    &&& (#[trigger] info[i]).0 == ship.entity_id
                    &&& says_where(info[i].1, ship)
                }
            &&& forall|i: int|
                ships <= i < info.len() ==> {
                    let bullet = before.bullets@[i - ships].shared;
                    &&& (#[trigger] info[i]).0 == bullet.entity_id
                    &&& says_where(info[i].1, bullet)
                }
            &&& sent.add_remove is Some <==> before.new_objects@.len() + before.deleted@.len() > 0
            &&& sent.add_remove matches Some(changes) ==> changes.new@ == before.new_objects@
                && changes.deleted@ == before.deleted@
            &&& after.new_objects@.len() == 0 && after.deleted@.len() == 0
        },
        messages is None ==> after.new_objects@ == before.new_objects@ && after.deleted@
            == before.deleted@,
        after.players@ == before.players@,
        after.live@ == before.live@,
        after.spawning@ == before.spawning@,
        after.dead@ == before.dead@,
        after.bullets@ == before.bullets@,
        after.scores@ == before.scores@,
        after.entity_ids.0 == before.entity_ids.0,
        after.client_ids.0 == before.client_ids.0,
        after.num_teams == before.num_teams,
{
}

} // verus!
