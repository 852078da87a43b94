//! Movement of ships and bullets over a tick.
use crate::double::{Double, Vec2};
use crate::entity::{off_field, Bullet, Entity, GameEntity, Player};
use crate::entity::PLAYER_MAX_SPEED;
use crate::graveyard::dead_keys;
use crate::retain::{kept, kept_places, removed, retaining_keeps_order, within, RetainTools};
use crate::world::{
    ids_ok, lemma_fewer_bullets, lemma_same_identities, live_players_are_known, same_identities,
    teams_ok, times, World,
};
use vstd::prelude::*;

verus! {

broadcast use vstd::std_specs::hash::group_hash_axioms;

/// Where a tick takes an entity.
#[derive(Clone, Copy, Debug, PartialEq, Eq, Structural)]
pub struct Motion {
    pub position: Vec2,
    /// The velocity after the acceleration of the tick, for an entity that has one.
    pub velocity: Vec2,
    /// The length of the velocity.
    pub speed: Double,
    /// The velocity, scaled down to the speed that the entity is held to.
    pub limited: Vec2,
}

/// The velocity that a tick gives an entity: a new one, if its kind has an acceleration.
pub open spec fn accelerated(
    velocity: Vec2,
    acceleration: Option<Vec2>,
    motion: Motion,
) -> Vec2 {
    match acceleration {
        Some(_) => motion.velocity,
        None => velocity,
    }
}

/// A velocity held to a speed, if there is one and it is exceeded.
pub open spec fn held_to(velocity: Vec2, max: Option<Double>, motion: Motion) -> Vec2 {
    match max {
        Some(max) => if max.below(motion.speed) {
            motion.limited
        } else {
            velocity
        },
        None => velocity,
    }
}

/// An entity after a tick.
pub open spec fn moved(
    entity: GameEntity,
    acceleration: Option<Vec2>,
    max: Option<Double>,
    motion: Motion,
) -> GameEntity {
    GameEntity {
        position: motion.position,
        velocity: held_to(accelerated(entity.velocity, acceleration, motion), max, motion),
        ..entity
    }
}

/// A ship after a tick.
pub open spec fn moved_ship(ship: Player, motion: Motion) -> Player {
    ship.spec_with_entity(
        moved(ship.shared, ship.spec_acceleration(), Player::spec_max_speed(), motion),
    )
}

/// A bullet after a tick.
pub open spec fn moved_bullet(bullet: Bullet, motion: Motion) -> Bullet {
    bullet.spec_with_entity(
        moved(bullet.shared, bullet.spec_acceleration(), Bullet::spec_max_speed(), motion),
    )
}

/// The bullets after a tick, those off the field too.
pub open spec fn moved_bullets(bullets: Seq<Bullet>, motions: Seq<Motion>) -> Seq<Bullet> {
    Seq::new(bullets.len(), |i: int| moved_bullet(bullets[i], motions[i]))
}

/// For each bullet, whether it is on the field.
pub open spec fn on_field(bullets: Seq<Bullet>) -> Seq<bool> {
    Seq::new(bullets.len(), |i: int| !off_field(bullets[i].shared.position))
}

/// The server after all live ships and all bullets have moved, and the bullets that have left
/// the field are gone.
pub open spec fn everything_moved(
    before: World,
    ships: Seq<Motion>,
    bullets: Seq<Motion>,
    after: World,
) -> bool {
    let all = moved_bullets(before.bullets@, bullets);
    &&& after.bullets@ == kept(all, on_field(all))
    &&& after.players@.dom() == before.players@.dom()
    &&& forall|i: int|
        0 <= i < before.live@.len() ==> after.players@[#[trigger] before.live@[i]] == moved_ship(
            before.players@[before.live@[i]],
            ships[i],
        )
    &&& forall|key: u64| #[trigger]
        before.players@.contains_key(key) && !before.live@.contains(key) ==> after.players@[key]
            == before.players@[key]
    &&& after == (World { players: after.players, bullets: after.bullets, ..before })
}

/// Moves an entity by what a tick does to it.
pub fn update_physics<E: Entity>(e: &mut E, motion: &Motion)
    ensures
        *final(e) == old(e).spec_with_entity(
            moved(
                old(e).spec_entity(),
                old(e).spec_acceleration(),
                E::spec_max_speed(),
                *motion,
            ),
        ),
{
    let accelerates = e.acceleration().is_some();
    let ent = e.entity_mut();
    if accelerates {
        ent.velocity = motion.velocity;
    }
    ent.position = motion.position;
    if let Some(max) = E::max_speed() {
        if max.less(motion.speed) {
            ent.velocity = motion.limited;
        }
    }
}

fn drop_off_field(bullets: &mut Vec<Bullet>)
    ensures
        final(bullets)@ == kept(old(bullets)@, on_field(old(bullets)@)),
{
    let ghost start = bullets@;
    let stays = |b: &mut Bullet| -> (stays: bool)
        ensures
            stays == !off_field(old(b).shared.position),
            *final(b) == *old(b),
        { !b.should_die() };
    let _gone = bullets.retain_return(stays);
    proof {
        let (after, keep) = choose|after: Seq<Bullet>, keep: Seq<bool>|
            {
                &&& after.len() == start.len()
                &&& keep.len() == after.len()
                &&& forall|i: int| #[trigger]
                    within(i, keep.len() as int) ==> exists|t: &mut Bullet|
                        {
                            &&& #[trigger] call_ensures(stays, (t,), keep[i])
                            &&& *t == start[i]
                            &&& *final(t) == after[i]
                        }
                &&& bullets@ == #[trigger] kept(after, keep)
                &&& _gone@ == removed(after, keep)
            };
        assert forall|i: int| 0 <= i < start.len() implies #[trigger] after[i] == start[i]
            && keep[i] == on_field(start)[i] by {
            assert(within(i, keep.len() as int));
        }
        assert(after =~= start);
        assert(keep =~= on_field(start));
    }
}

impl World {
    fn move_ships(&mut self, ships: &Vec<Motion>)
        requires
            old(self).well_formed(),
            ships@.len() == old(self).live@.len(),
        ensures
            final(self).well_formed(),
            final(self).players@.dom() == old(self).players@.dom(),
            forall|i: int|
                0 <= i < old(self).live@.len() ==> final(self).players@[#[trigger] old(
                    self).live@[i]] == moved_ship(
                        old(self).players@[old(self).live@[i]],
                        ships@[i],
                    ),
            forall|key: u64| #[trigger]
                old(self).players@.contains_key(key) && !old(self).live@.contains(key) ==> final(
                    self).players@[key] == old(self).players@[key],
            *final(self) == (World { players: final(self).players, ..*old(self) }),
    {
        let ghost start = *self;
        proof {
            live_players_are_known(self.players@, self.live@, self.spawning@, self.dead@);
        }
        let live_count: usize = self.live.len();
        for i in 0..live_count
            invariant
                start == *old(self),
                start.well_formed(),
                live_count == start.live@.len(),
                ships@.len() == start.live@.len(),
                start.live@.no_duplicates(),
                forall|j: int|
                    0 <= j < start.live@.len() ==> start.players@.contains_key(
                        #[trigger] start.live@[j],
                    ),
                *self == (World { players: self.players, ..start }),
                same_identities(start.players@, self.players@),
                forall|j: int|
                    0 <= j < i ==> self.players@[#[trigger] start.live@[j]] == moved_ship(
                        start.players@[start.live@[j]],
                        ships@[j],
                    ),
                forall|j: int|
                    i <= j < start.live@.len() ==> self.players@[#[trigger] start.live@[j]]
                        == start.players@[start.live@[j]],
                forall|key: u64| #[trigger]
                    start.players@.contains_key(key) && !start.live@.contains(key)
                        ==> self.players@[key] == start.players@[key],
        {
            let ghost previous = *self;
            let key: u64 = self.live[i];
            proof {
                assert(start.players@.contains_key(start.live@[i as int]));
                assert(self.players@.dom().contains(key));
            }
            let mut ship: Player = *self.players.get(&key).unwrap();
            update_physics(&mut ship, &ships[i]);
            self.players.insert(key, ship);
            proof {
                assert(self.players@.dom() =~= previous.players@.dom());
                assert(start.live@.contains(start.live@[i as int]));
            }
        }
        proof {
            lemma_same_identities(
                start.players@,
                self.players@,
                start.bullets@,
                start.entity_ids.0 as int,
                self.num_teams,
                self.client_ids.0 as int,
            );
            assert forall|k: u64| #[trigger]
                times(self.live@, k) + times(self.spawning@, k) + times(dead_keys(self.dead@), k)
                    == if self.players@.contains_key(k) {
                    1nat
                } else {
                    0nat
                } by {
                assert(self.players@.contains_key(k) == start.players@.contains_key(k));
                assert(times(start.live@, k) == times(self.live@, k));
            }
        }
    }

    fn move_bullets(&mut self, motions: &Vec<Motion>)
        requires
            old(self).well_formed(),
            motions@.len() == old(self).bullets@.len(),
        ensures
            final(self).well_formed(),
            final(self).bullets@ == moved_bullets(old(self).bullets@, motions@),
            *final(self) == (World { bullets: final(self).bullets, ..*old(self) }),
    {
        let ghost start = *self;
        let bullet_count: usize = self.bullets.len();
        for i in 0..bullet_count
            invariant
                bullet_count == start.bullets@.len(),
                motions@.len() == start.bullets@.len(),
                *self == (World { bullets: self.bullets, ..start }),
                self.bullets@.len() == start.bullets@.len(),
                forall|j: int|
                    0 <= j < i ==> #[trigger] self.bullets@[j] == moved_bullets(
                        start.bullets@,
                        motions@,
                    )[j],
                forall|j: int|
                    i <= j < start.bullets@.len() ==> #[trigger] self.bullets@[j]
                        == start.bullets@[j],
        {
            let mut bullet: Bullet = self.bullets[i];
            update_physics(&mut bullet, &motions[i]);
            self.bullets.set(i, bullet);
        }
        proof {
            assert(self.bullets@ =~= moved_bullets(start.bullets@, motions@));
            let after = self.bullets@;
            assert forall|i: int| 0 <= i < after.len() implies {
                &&& (#[trigger] after[i]).shared.entity_id == start.bullets@[i].shared.entity_id
                &&& after[i].shared.owning_team == start.bullets@[i].shared.owning_team
            } by {}
            assert(ids_ok(self.players@, after, self.entity_ids.0 as int));
            assert(teams_ok(self.players@, after, self.num_teams));
        }
    }

    /// Moves all live ships and all bullets, and drops the bullets that have left the field.
    pub fn advance(&mut self, ships: &Vec<Motion>, bullets: &Vec<Motion>)
        requires
            old(self).well_formed(),
            ships@.len() == old(self).live@.len(),
            bullets@.len() == old(self).bullets@.len(),
        ensures
            final(self).well_formed(),
            everything_moved(*old(self), ships@, bullets@, *final(self)),
    {
        self.move_ships(ships);
        self.move_bullets(bullets);
        let ghost between = *self;
        drop_off_field(&mut self.bullets);
        proof {
            lemma_fewer_bullets(
                between.players@,
                between.bullets@,
                on_field(between.bullets@),
                between.entity_ids.0 as int,
                between.num_teams,
            );
        }
    }
}

/// After a tick, every bullet that is left is on the field.
pub proof fn remaining_bullets_are_on_field(bullets: Seq<Bullet>)
    ensures
        forall|i: int|
            0 <= i < kept(bullets, on_field(bullets)).len() ==> !off_field(
                (#[trigger] kept(bullets, on_field(bullets))[i]).shared.position,
            ),
{
    let keep = on_field(bullets);
    retaining_keeps_order(bullets, keep);
    assert forall|i: int| 0 <= i < kept(bullets, keep).len() implies !off_field(
        (#[trigger] kept(bullets, keep)[i]).shared.position,
    ) by {
        assert(keep[kept_places(keep)[i]]);
    }
}

/// A tick never changes the velocity of a bullet, at any speed; of an entity only position and
/// velocity ever change.
pub proof fn bullets_keep_their_velocity(bullet: Bullet, motion: Motion)
    ensures
        moved_bullet(bullet, motion) == (Bullet {
            shared: GameEntity { position: motion.position, ..bullet.shared },
        }),
{
}

/// A tick changes nothing of a ship but its position and its velocity.
pub proof fn ships_only_change_place_and_velocity(ship: Player, motion: Motion)
    ensures
        ({
            let after = moved_ship(ship, motion);
            after == (Player {
                shared: GameEntity {
                    position: motion.position,
                    velocity: after.shared.velocity,
                    ..ship.shared
                },
                ..ship
            })
        }),
        !(Double { bits: PLAYER_MAX_SPEED }).below(motion.speed) ==> moved_ship(
            ship,
            motion,
        ).shared.velocity == motion.velocity,
        (Double { bits: PLAYER_MAX_SPEED }).below(motion.speed) ==> moved_ship(
            ship,
            motion,
        ).shared.velocity == motion.limited,
{
}

} // verus!
