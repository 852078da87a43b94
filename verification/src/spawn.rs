//! New ships for players without one.
use crate::controller::ControllerState;
use crate::double::INFINITE;
use crate::double::{lemma_magnitude_order, Double, Vec2};
use crate::entity::PLAYER_RADIUS_SQUARED;
use crate::entity::{touches, Entity, GameEntity, Player};
use crate::graveyard::NEVER;
use crate::graveyard::{dead_keys, take_due, waiting, DeadPlayer};
use crate::packets::NewObject;
use crate::retain::{
    kept, kept_places, removed, removed_were_rejected, retaining_keeps_order,
    retaining_loses_nothing,
};
use crate::world::{
    announcement, lemma_same_identities, lemma_times_of_concat, lemma_times_of_member,
    live_players_are_known, times, World,
};
use vstd::prelude::*;

verus! {

broadcast use vstd::std_specs::hash::group_hash_axioms;

proof fn lemma_kept_keys(dead: Seq<DeadPlayer>, keep: Seq<bool>)
    requires
        keep.len() == dead.len(),
    ensures
        dead_keys(kept(dead, keep)) == kept(dead_keys(dead), keep),
        dead_keys(removed(dead, keep)) == removed(dead_keys(dead), keep),
    decreases dead.len(),
{
    if dead.len() == 0 {
        assert(dead_keys(kept(dead, keep)) =~= kept(dead_keys(dead), keep));
        assert(dead_keys(removed(dead, keep)) =~= removed(dead_keys(dead), keep));
    } else {
        lemma_kept_keys(dead.drop_last(), keep.drop_last());
        assert(dead_keys(dead).drop_last() =~= dead_keys(dead.drop_last()));
        assert(dead_keys(kept(dead, keep)) =~= kept(dead_keys(dead), keep));
        assert(dead_keys(removed(dead, keep)) =~= removed(dead_keys(dead), keep));
    }
}

/// A player's ship as it enters the field: at rest at the given place, with no control held
/// down.
pub open spec fn respawned(player: Player, position: Vec2) -> Player {
    Player {
        controller: ControllerState::idle(),
        acceleration: Vec2::origin(),
        shared: GameEntity { position, velocity: Vec2::origin(), ..player.shared },
        ..player
    }
}

/// Whether a ship on the field touches a ship that is about to enter, given the squared
/// distances from the ships on the field.
pub open spec fn is_blocked(
    players: Map<u64, Player>,
    live: Seq<u64>,
    newcomer: GameEntity,
    distances: Seq<Double>,
) -> bool {
    exists|i: int|
        0 <= i < live.len() && touches(
            players[#[trigger] live[i]].shared,
            Double { bits: PLAYER_RADIUS_SQUARED },
            newcomer,
            distances[i],
        )
}

/// The server after the players whose next ship is due have been lined up.
pub open spec fn lined_up(before: World, now: Double, after: World) -> bool {
    let keep = waiting(before.dead@, now);
    &&& after.dead@ == kept(before.dead@, keep)
    &&& after.spawning@ == before.spawning@ + dead_keys(removed(before.dead@, keep))
    &&& after == (World { dead: after.dead, spawning: after.spawning, ..before })
}

/// The server after the next ship in line has tried to enter the field, and whether it did. It
/// does unless a ship on the field touches it; it is announced then.
pub open spec fn tried_to_enter(
    before: World,
    position: Vec2,
    distances: Seq<Double>,
    now: Double,
    placed: bool,
    after: World,
) -> bool {
    let key = before.spawning@[0];
    let ship = respawned(before.players@[key], position);
    &&& placed == !is_blocked(before.players@, before.live@, ship.shared, distances)
    &&& !placed ==> after == before
    &&& placed ==> {
        &&& after.players@ == before.players@.insert(key, ship)
        &&& after.live@ == before.live@.push(key)
        &&& after.spawning@ == before.spawning@.drop_first()
        &&& after.new_objects@ == before.new_objects@.push(
            announcement(ship.shared, ship.spec_drawable(), now),
        )
        &&& after == (World {
            players: after.players,
            live: after.live,
            spawning: after.spawning,
            new_objects: after.new_objects,
            ..before
        })
    }
}

impl World {
    /// Lines up the players whose next ship is due.
    pub fn release_due(&mut self, now: Double)
        requires
            old(self).well_formed(),
        ensures
            final(self).well_formed(),
            lined_up(*old(self), now, *final(self)),
    {
        let ghost dead_before = self.dead@;
        let ghost keep = waiting(dead_before, now);
        let ghost spawning_before = self.spawning@;
        let due = take_due(&mut self.dead, now);
        for i in 0..due.len()
            invariant
                self.spawning@ == spawning_before + dead_keys(due@.take(i as int)),
                *self == (World { dead: self.dead, spawning: self.spawning, ..*old(self) }),
                self.dead@ == kept(dead_before, keep),
        {
            self.spawning.push(due[i].player);
            assert(self.spawning@ =~= spawning_before + dead_keys(due@.take(i + 1)));
        }
        proof {
            assert(due@.take(due@.len() as int) =~= due@);
            lemma_kept_keys(dead_before, keep);
            retaining_loses_nothing(dead_keys(dead_before), keep);
            assert forall|key: u64| #[trigger]
                times(self.live@, key) + times(self.spawning@, key) + times(
                    dead_keys(self.dead@),
                    key,
                ) == if self.players@.contains_key(key) {
                    1nat
                } else {
                    0nat
                } by {
                lemma_times_of_concat(spawning_before, dead_keys(due@), key);
                assert(times(old(self).live@, key) == times(self.live@, key));
            }
        }
    }

    /// Tries to let the next ship in line enter the field at a given place. It enters unless a
    /// ship on the field touches it there; `distances` are the squared distances of that place
    /// from the ships on the field.
    pub fn try_spawn(&mut self, position: Vec2, distances: &Vec<Double>, now: Double) -> (placed:
        bool)
        requires
            old(self).well_formed(),
            old(self).spawning@.len() > 0,
            distances@.len() == old(self).live@.len(),
        ensures
            final(self).well_formed(),
            tried_to_enter(*old(self), position, distances@, now, placed, *final(self)),
    {
        let ghost before = *self;
        proof {
            lemma_times_of_member(self.spawning@, 0);
            assert(times(self.live@, self.spawning@[0]) + times(self.spawning@, self.spawning@[0])
                > 0);
            live_players_are_known(self.players@, self.live@, self.spawning@, self.dead@);
        }
        let key: u64 = self.spawning[0];
        assert(self.players@.contains_key(key));
        let mut ship: Player = *self.players.get(&key).unwrap();
        ship.acceleration = Vec2::origin();
        ship.shared.velocity = Vec2::origin();
        ship.controller = ControllerState {
            up: false,
            down: false,
            left: false,
            right: false,
            fire: false,
        };
        ship.shared.position = position;
        assert(ship == respawned(before.players@[key], position));
        for i in 0..self.live.len()
            invariant
                *self == before,
                before == *old(self),
                before.well_formed(),
                before.spawning@.len() > 0,
                before.players@.contains_key(key),
                forall|j: int|
                    0 <= j < self.live@.len() ==> self.players@.contains_key(
                        #[trigger] self.live@[j],
                    ),
                distances@.len() == self.live@.len(),
                ship == respawned(before.players@[key], position),
                key == before.spawning@[0],
                forall|j: int|
                    0 <= j < i ==> !touches(
                        self.players@[#[trigger] self.live@[j]].shared,
                        Double { bits: PLAYER_RADIUS_SQUARED },
                        ship.shared,
                        distances@[j],
                    ),
        {
            assert(self.players@.contains_key(self.live@[i as int]));
            let other = self.players.get(&self.live[i]).unwrap();
            if other.collides_with(&ship.shared, distances[i]) {
                assert(touches(
                    self.players@[self.live@[i as int]].shared,
                    Double { bits: PLAYER_RADIUS_SQUARED },
                    ship.shared,
                    distances@[i as int],
                ));
                return false;
            }
        }
        self.new_objects.push(
            NewObject {
                id: ship.shared.entity_id,
                time: now,
                drawable: ship.drawable(),
                initial_info: ship.shared.info(),
            },
        );
        self.players.insert(key, ship);
        let _ = self.spawning.remove(0);
        self.live.push(key);
        proof {
            broadcast use vstd::seq_lib::group_to_multiset_ensures;

            assert(self.spawning@ =~= before.spawning@.drop_first());
            assert(self.players@.dom() =~= before.players@.dom());
            lemma_same_identities(
                before.players@,
                self.players@,
                self.bullets@,
                self.entity_ids.0 as int,
                self.num_teams,
                self.client_ids.0 as int,
            );
            assert forall|k: u64| #[trigger]
                times(self.live@, k) + times(self.spawning@, k) + times(dead_keys(self.dead@), k)
                    == if self.players@.contains_key(k) {
                    1nat
                } else {
                    0nat
                } by {
                assert(before.spawning@ =~= seq![key] + self.spawning@);
                lemma_times_of_concat(seq![key], self.spawning@, k);
                assert(self.live@ =~= before.live@ + seq![key]);
                lemma_times_of_concat(before.live@, seq![key], k);
                assert(times(before.live@, k) + times(before.spawning@, k) + times(
                    dead_keys(before.dead@),
                    k,
                ) == if before.players@.contains_key(k) {
                    1nat
                } else {
                    0nat
                });
            }
        }
        true
    }
}

/// A player gets the next ship exactly when it is due: everyone who goes on waiting has a time
/// yet to come, and everyone who is lined up has not.
pub proof fn only_due_players_are_released(dead: Seq<DeadPlayer>, now: Double)
    ensures
        forall|i: int|
            0 <= i < kept(dead, waiting(dead, now)).len() ==> now.below(
                (#[trigger] kept(dead, waiting(dead, now))[i]).respawn_at,
            ),
        forall|i: int|
            0 <= i < removed(dead, waiting(dead, now)).len() ==> !now.below(
                (#[trigger] removed(dead, waiting(dead, now))[i]).respawn_at,
            ),
{
    let keep = waiting(dead, now);
    retaining_keeps_order(dead, keep);
    removed_were_rejected(dead, keep);
    assert forall|i: int| 0 <= i < kept(dead, keep).len() implies now.below(
        (#[trigger] kept(dead, keep)[i]).respawn_at,
    ) by {
        assert(keep[kept_places(keep)[i]]);
    }
}

/// A player who has just joined gets a ship at once, whatever the time, as long as the time is
/// a number.
pub proof fn newcomers_are_due(now: Double)
    requires
        !now.is_nan(),
    ensures
        !now.below(Double { bits: NEVER }),
{
    let never = Double { bits: NEVER };
    let magnitude = now.magnitude();
    if magnitude < INFINITE {
        lemma_magnitude_order(magnitude, INFINITE as nat);
    }
    assert(never.magnitude() == INFINITE);
    assert(now.value() >= never.value());
}

} // verus!
