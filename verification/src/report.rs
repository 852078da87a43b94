//! What the server tells its clients.
use crate::client::{
    after_handshake, after_tick, handshake_shows_everything, ids_differ, shown, tick_only_moves,
    ClientDrawable,
};
use crate::double::Double;
use crate::entity::{Bullet, Drawable, Entity, Player};
use crate::lists::{DeletedIds, InfoList, NewObjects, ObjectList};
use crate::packets::{AddRemove, ObjectInfo, ServerHandshake, Tick};
use crate::world::{ids_ok, ships_of, World};
use vstd::prelude::*;

verus! {

/// The messages of a tick: where everything is, and, if anything has changed, what has appeared
/// and what is gone.
pub struct Broadcast {
    pub tick: Tick,
    pub add_remove: Option<AddRemove>,
}

/// An entity with its looks.
pub open spec fn described<E: Entity>(e: E) -> (u32, (Drawable, ObjectInfo)) {
    (e.spec_entity().entity_id, (e.spec_drawable(), e.spec_entity().spec_info()))
}

/// An entity without its looks.
pub open spec fn located<E: Entity>(e: E) -> (u32, ObjectInfo) {
    (e.spec_entity().entity_id, e.spec_entity().spec_info())
}

/// All objects of the field: the ships in order, then the bullets in order.
pub open spec fn all_described(ships: Seq<Player>, bullets: Seq<Bullet>) -> Seq<
    (u32, (Drawable, ObjectInfo)),
> {
    ships.map_values(|p: Player| described(p)) + bullets.map_values(|b: Bullet| described(b))
}

/// Where all objects of the field are: the ships in order, then the bullets in order.
pub open spec fn all_located(ships: Seq<Player>, bullets: Seq<Bullet>) -> Seq<(u32, ObjectInfo)> {
    ships.map_values(|p: Player| located(p)) + bullets.map_values(|b: Bullet| located(b))
}

/// Whether an answer to a client's first message says what is on the field and what the scores
/// are.
pub open spec fn tells_everything(world: World, answer: ServerHandshake) -> bool {
    &&& answer.objects@ == all_described(ships_of(world.players@, world.live@), world.bullets@)
    &&& answer.scores@ == world.scores@
}

/// The server after its clients have been told what has happened, and the messages to them.
/// While nobody is on the field there are none, and what has appeared or gone is kept for later.
pub open spec fn clients_told(
    before: World,
    now: Double,
    messages: Option<Broadcast>,
    after: World,
) -> bool {
    &&& before.live@.len() == 0 ==> messages is None && after == before
    &&& before.live@.len() > 0 ==> {
        &&& messages matches Some(sent)
        &&& sent.tick.time == now
        &&& sent.tick.info@ == all_located(ships_of(before.players@, before.live@), before.bullets@)
        &&& match sent.add_remove {
            Some(changes) => {
                &&& changes.new@ == before.new_objects@
                &&& changes.deleted@ == before.deleted@
                &&& changes.new@.len() > 0 || changes.deleted@.len() > 0
            },
            None => before.new_objects@.len() == 0 && before.deleted@.len() == 0,
        }
        &&& after.new_objects@.len() == 0
        &&& after.deleted@.len() == 0
        &&& after == (World { new_objects: after.new_objects, deleted: after.deleted, ..before })
    }
}

fn describe_all(ships: &Vec<Player>, bullets: &Vec<Bullet>) -> (objects: ObjectList)
    ensures
        objects@ == all_described(ships@, bullets@),
{
    let mut objects = ObjectList::new();
    for i in 0..ships.len()
        invariant
            objects@ == ships@.take(i as int).map_values(|p: Player| described(p)),
    {
        let ship = &ships[i];
        objects.push((ship.shared.entity_id, (ship.drawable(), ship.shared.info())));
        assert(objects@ =~= ships@.take(i + 1).map_values(|p: Player| described(p)));
    }
    assert(ships@.take(ships@.len() as int) =~= ships@);
    let ghost of_ships = objects@;
    for i in 0..bullets.len()
        invariant
            objects@ == of_ships + bullets@.take(i as int).map_values(|b: Bullet| described(b)),
    {
        let bullet = &bullets[i];
        objects.push((bullet.shared.entity_id, (bullet.drawable(), bullet.shared.info())));
        assert(objects@ =~= of_ships + bullets@.take(i + 1).map_values(
            |b: Bullet| described(b),
        ));
    }
    assert(bullets@.take(bullets@.len() as int) =~= bullets@);
    objects
}

fn locate_all(ships: &Vec<Player>, bullets: &Vec<Bullet>) -> (info: InfoList)
    ensures
        info@ == all_located(ships@, bullets@),
{
    let mut info = InfoList::new();
    for i in 0..ships.len()
        invariant
            info@ == ships@.take(i as int).map_values(|p: Player| located(p)),
    {
        let ship = &ships[i];
        info.push((ship.shared.entity_id, ship.shared.info()));
        assert(info@ =~= ships@.take(i + 1).map_values(|p: Player| located(p)));
    }
    assert(ships@.take(ships@.len() as int) =~= ships@);
    let ghost of_ships = info@;
    for i in 0..bullets.len()
        invariant
            info@ == of_ships + bullets@.take(i as int).map_values(|b: Bullet| located(b)),
    {
        let bullet = &bullets[i];
        info.push((bullet.shared.entity_id, bullet.shared.info()));
        assert(info@ =~= of_ships + bullets@.take(i + 1).map_values(|b: Bullet| located(b)));
    }
    assert(bullets@.take(bullets@.len() as int) =~= bullets@);
    info
}

impl World {
    /// The answer to a client's first message.
    pub fn handshake(&self) -> (handshake: ServerHandshake)
        requires
            self.well_formed(),
        ensures
            tells_everything(*self, handshake),
    {
        let ships = self.ships();
        ServerHandshake {
            objects: describe_all(&ships, &self.bullets),
            scores: self.scores.duplicate(),
        }
    }

    /// The messages of a tick. While nobody is on the field there are none, and what has
    /// appeared or gone is kept for later.
    pub fn broadcast(&mut self, now: Double) -> (messages: Option<Broadcast>)
        requires
            old(self).well_formed(),
        ensures
            final(self).well_formed(),
            clients_told(*old(self), now, messages, *final(self)),
    {
        if self.live.len() == 0 {
            return None;
        }
        let ships = self.ships();
        let tick = Tick { time: now, info: locate_all(&ships, &self.bullets) };
        let mut new = NewObjects::new();
        let mut deleted = DeletedIds::new();
        std::mem::swap(&mut new, &mut self.new_objects);
        std::mem::swap(&mut deleted, &mut self.deleted);
        let add_remove = if new.as_slice().len() == 0 && deleted.as_slice().len() == 0 {
            None
        } else {
            Some(AddRemove { new, deleted })
        };
        Some(Broadcast { tick, add_remove })
    }
}

/// No two objects of the field are told to the clients under the same id.
pub proof fn field_ids_differ(
    players: Map<u64, Player>,
    live: Seq<u64>,
    bullets: Seq<Bullet>,
    next: int,
)
    requires
        ids_ok(players, bullets, next),
        forall|i: int| 0 <= i < live.len() ==> players.contains_key(#[trigger] live[i]),
        live.no_duplicates(),
    ensures
        ids_differ(all_described(ships_of(players, live), bullets)),
        ids_differ(all_located(ships_of(players, live), bullets)),
{
    let ships = ships_of(players, live);
    let objects = all_described(ships, bullets);
    let info = all_located(ships, bullets);
    assert forall|i: int, j: int| 0 <= i < j < objects.len() implies (#[trigger] objects[i]).0 != (
    #[trigger] objects[j]).0 by {
        if j < ships.len() {
            assert(players.contains_key(live[i]) && players.contains_key(live[j]));
        } else if i < ships.len() {
            assert(players.contains_key(live[i]));
            assert(players[live[i]].shared.entity_id != bullets[j
                - ships.len()].shared.entity_id);
        } else {
            assert(bullets[i - ships.len()].shared.entity_id != bullets[j
                - ships.len()].shared.entity_id);
        }
    }
    assert forall|i: int, j: int| 0 <= i < j < info.len() implies (#[trigger] info[i]).0 != (
    #[trigger] info[j]).0 by {
        assert(info[i].0 == objects[i].0 && info[j].0 == objects[j].0);
    }
}

/// A client that has heard nothing yet shows, after the server's answer, every ship and every
/// bullet of the field as it is, and nothing else.
pub proof fn newcomers_see_the_field(
    players: Map<u64, Player>,
    live: Seq<u64>,
    bullets: Seq<Bullet>,
    next: int,
)
    requires
        ids_ok(players, bullets, next),
        forall|i: int| 0 <= i < live.len() ==> players.contains_key(#[trigger] live[i]),
        live.no_duplicates(),
    ensures
        ({
            let ships = ships_of(players, live);
            let seen = after_handshake(Map::empty(), all_described(ships, bullets));
            &&& forall|i: int|
                0 <= i < ships.len() ==> {
                    let ship = #[trigger] ships[i];
                    &&& seen.contains_key(ship.shared.entity_id)
                    &&& seen[ship.shared.entity_id] == shown(
                        ship.spec_drawable(),
                        ship.shared.spec_info(),
                    )
                }
            &&& forall|i: int|
                0 <= i < bullets.len() ==> {
                    let bullet = #[trigger] bullets[i];
                    &&& seen.contains_key(bullet.shared.entity_id)
                    &&& seen[bullet.shared.entity_id] == shown(
                        bullet.spec_drawable(),
                        bullet.shared.spec_info(),
                    )
                }
            &&& forall|id: u32| #[trigger]
                seen.contains_key(id) ==> {
                    ||| exists|i: int|
                        0 <= i < ships.len() && (#[trigger] ships[i]).shared.entity_id == id
                    ||| exists|i: int|
                        0 <= i < bullets.len() && (#[trigger] bullets[i]).shared.entity_id == id
                }
        }),
{
    let ships = ships_of(players, live);
    let objects = all_described(ships, bullets);
    let seen = after_handshake(Map::empty(), objects);
    field_ids_differ(players, live, bullets, next);
    handshake_shows_everything(Map::empty(), objects);
    assert forall|i: int| 0 <= i < ships.len() implies {
        let ship = #[trigger] ships[i];
        &&& seen.contains_key(ship.shared.entity_id)
        &&& seen[ship.shared.entity_id] == shown(ship.spec_drawable(), ship.shared.spec_info())
    } by {
        assert(objects[i] == described(ships[i]));
    }
    assert forall|i: int| 0 <= i < bullets.len() implies {
        let bullet = #[trigger] bullets[i];
        &&& seen.contains_key(bullet.shared.entity_id)
        &&& seen[bullet.shared.entity_id] == shown(
            bullet.spec_drawable(),
            bullet.shared.spec_info(),
        )
    } by {
        assert(objects[ships.len() + i] == described(bullets[i]));
    }
    assert forall|id: u32| #[trigger] seen.contains_key(id) implies {
        ||| exists|i: int| 0 <= i < ships.len() && (#[trigger] ships[i]).shared.entity_id == id
        ||| exists|i: int| 0 <= i < bullets.len() && (#[trigger] bullets[i]).shared.entity_id == id
    } by {
        let k = choose|k: int| 0 <= k < objects.len() && (#[trigger] objects[k]).0 == id;
        assert(objects[k].0 == id);
        if k < ships.len() {
            assert(ships[k].shared.entity_id == id);
        } else {
            assert(bullets[k - ships.len()].shared.entity_id == id);
        }
    }
}

/// After a tick, a client that shows a ship or a bullet of the field shows it where it is.
pub proof fn ticks_bring_clients_up_to_date(
    players: Map<u64, Player>,
    live: Seq<u64>,
    bullets: Seq<Bullet>,
    next: int,
    entities: Map<u32, ClientDrawable>,
)
    requires
        ids_ok(players, bullets, next),
        forall|i: int| 0 <= i < live.len() ==> players.contains_key(#[trigger] live[i]),
        live.no_duplicates(),
    ensures
        ({
            let ships = ships_of(players, live);
            let seen = after_tick(entities, all_located(ships, bullets));
            &&& seen.dom() == entities.dom()
            &&& forall|i: int|
                0 <= i < ships.len() && entities.contains_key(
                    (#[trigger] ships[i]).shared.entity_id,
                ) ==> seen[ships[i].shared.entity_id] == shown(
                    entities[ships[i].shared.entity_id].drawable,
                    ships[i].shared.spec_info(),
                )
            &&& forall|i: int|
                0 <= i < bullets.len() && entities.contains_key(
                    (#[trigger] bullets[i]).shared.entity_id,
                ) ==> seen[bullets[i].shared.entity_id] == shown(
                    entities[bullets[i].shared.entity_id].drawable,
                    bullets[i].shared.spec_info(),
                )
        }),
{
    let ships = ships_of(players, live);
    let info = all_located(ships, bullets);
    let seen = after_tick(entities, info);
    field_ids_differ(players, live, bullets, next);
    tick_only_moves(entities, info);
    assert forall|i: int|
        0 <= i < ships.len() && entities.contains_key(
            (#[trigger] ships[i]).shared.entity_id,
        ) implies seen[ships[i].shared.entity_id] == shown(
        entities[ships[i].shared.entity_id].drawable,
        ships[i].shared.spec_info(),
    ) by {
        assert(info[i] == located(ships[i]));
    }
    assert forall|i: int|
        0 <= i < bullets.len() && entities.contains_key(
            (#[trigger] bullets[i]).shared.entity_id,
        ) implies seen[bullets[i].shared.entity_id] == shown(
        entities[bullets[i].shared.entity_id].drawable,
        bullets[i].shared.spec_info(),
    ) by {
        assert(info[ships.len() + i] == located(bullets[i]));
    }
}

} // verus!
