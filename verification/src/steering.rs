//! What the controls of the live ships do.
use crate::double::{Double, Vec2};
use crate::entity::{bullet, spec_bullet, Bullet, Entity, GameEntity, Player};
use crate::graveyard::dead_keys;
use crate::packets::NewObject;
use crate::world::{
    announcement, ids_ok, is_team, lemma_same_identities, live_players_are_known, same_identities,
    ships_of, teams_ok, times, World,
};
use vstd::prelude::*;

verus! {

broadcast use vstd::std_specs::hash::group_hash_axioms;

/// What the controls of a ship amount to for one tick, and where a bullet of it would start.
#[derive(Clone, Copy, Debug, PartialEq, Eq, Structural)]
pub struct Steering {
    pub rotation: Double,
    pub acceleration: Vec2,
    /// The position of the ship, brought back into the field.
    pub position: Vec2,
    pub muzzle_position: Vec2,
    pub muzzle_velocity: Vec2,
}

/// Whether a ship fires: its trigger is held down, and its last shot is long enough ago.
pub open spec fn fires(player: Player, now: Double) -> bool {
    player.controller.fire && player.fire_ready.below(now)
}

/// A ship after its controls have acted.
pub open spec fn steered(
    player: Player,
    steering: Steering,
    now: Double,
    ready_again: Double,
) -> Player {
    Player {
        fire_ready: if fires(player, now) {
            ready_again
        } else {
            player.fire_ready
        },
        acceleration: steering.acceleration,
        shared: GameEntity {
            rotation: steering.rotation,
            position: steering.position,
            ..player.shared
        },
        ..player
    }
}

/// How many of the first `n` live ships fire.
pub open spec fn shots_fired(ships: Seq<Player>, now: Double, n: nat) -> nat
    decreases n,
{
    if n == 0 {
        0
    } else {
        shots_fired(ships, now, (n - 1) as nat) + if fires(ships[n - 1], now) {
            1nat
        } else {
            0nat
        }
    }
}

/// The bullets that the first `n` live ships fire. Each shot takes two ids; the bullet has the
/// second one.
pub open spec fn bullets_fired(
    ships: Seq<Player>,
    steerings: Seq<Steering>,
    now: Double,
    first_id: int,
    n: nat,
) -> Seq<Bullet>
    decreases n,
{
    if n == 0 {
        Seq::empty()
    } else {
        let before = bullets_fired(ships, steerings, now, first_id, (n - 1) as nat);
        let steering = steerings[n - 1];
        if fires(ships[n - 1], now) {
            before.push(
                spec_bullet(
                    (first_id + 2 * before.len() + 1) as u32,
                    ships[n - 1].shared,
                    steering.muzzle_position,
                    steering.muzzle_velocity,
                ),
            )
        } else {
            before
        }
    }
}

/// The announcements of the bullets that the first `n` live ships fire. Each shot takes two
/// ids; it is announced under the first one.
pub open spec fn shots_announced(
    ships: Seq<Player>,
    steerings: Seq<Steering>,
    now: Double,
    first_id: int,
    n: nat,
) -> Seq<NewObject>
    decreases n,
{
    if n == 0 {
        Seq::empty()
    } else {
        let before = shots_announced(ships, steerings, now, first_id, (n - 1) as nat);
        let steering = steerings[n - 1];
        if fires(ships[n - 1], now) {
            let shown = spec_bullet(
                (first_id + 2 * before.len()) as u32,
                ships[n - 1].shared,
                steering.muzzle_position,
                steering.muzzle_velocity,
            );
            before.push(announcement(shown.shared, shown.spec_drawable(), now))
        } else {
            before
        }
    }
}

proof fn lemma_shots_grow(ships: Seq<Player>, now: Double, n: nat, m: nat)
    requires
        n <= m,
    ensures
        shots_fired(ships, now, n) <= shots_fired(ships, now, m),
    decreases m - n,
{
    if n < m {
        lemma_shots_grow(ships, now, n, (m - 1) as nat);
    }
}

proof fn lemma_new_bullet(
    players: Map<u64, Player>,
    bullets: Seq<Bullet>,
    next: int,
    num_teams: usize,
    shot: Bullet,
)
    requires
        ids_ok(players, bullets, next),
        teams_ok(players, bullets, num_teams),
        shot.shared.entity_id == next + 1,
        is_team(shot.shared.owning_team, num_teams),
    ensures
        ids_ok(players, bullets.push(shot), next + 2),
        teams_ok(players, bullets.push(shot), num_teams),
{
    let after = bullets.push(shot);
    assert forall|i: int| 0 <= i < after.len() implies (#[trigger] after[i]).shared.entity_id < next
        + 2 by {
        if i < bullets.len() {
            assert(after[i] == bullets[i]);
        }
    }
    assert forall|i: int, j: int| 0 <= i < j < after.len() implies (
    #[trigger] after[i]).shared.entity_id != (#[trigger] after[j]).shared.entity_id by {
        assert(after[i] == bullets[i]);
        if j < bullets.len() {
            assert(after[j] == bullets[j]);
        }
    }
    assert forall|key: u64, i: int| #[trigger]
        players.contains_key(key) && 0 <= i < after.len() implies players[key].shared.entity_id != (
    #[trigger] after[i]).shared.entity_id by {
        if i < bullets.len() {
            assert(after[i] == bullets[i]);
        }
    }
    assert forall|i: int| 0 <= i < after.len() implies is_team(
        (#[trigger] after[i]).shared.owning_team,
        num_teams,
    ) by {
        if i < bullets.len() {
            assert(after[i] == bullets[i]);
        }
    }
}

/// The server after the controls of all live ships have acted.
pub open spec fn controls_acted(
    before: World,
    steerings: Seq<Steering>,
    now: Double,
    ready_again: Double,
    after: World,
) -> bool {
    let ships = ships_of(before.players@, before.live@);
    let first_id = before.entity_ids.0 as int;
    let n = before.live@.len();
    let fired = bullets_fired(ships, steerings, now, first_id, n);
    &&& after.bullets@ == before.bullets@ + fired
    &&& after.new_objects@ == before.new_objects@ + shots_announced(
        ships,
        steerings,
        now,
        first_id,
        n,
    )
    &&& after.entity_ids.0 == first_id + 2 * fired.len()
    &&& after.players@.dom() == before.players@.dom()
    &&& forall|i: int|
        0 <= i < before.live@.len() ==> after.players@[#[trigger] before.live@[i]] == steered(
            before.players@[before.live@[i]],
            steerings[i],
            now,
            ready_again,
        )
    &&& forall|key: u64| #[trigger]
        before.players@.contains_key(key) && !before.live@.contains(key) ==> after.players@[key]
            == before.players@[key]
    &&& after == (World {
        players: after.players,
        bullets: after.bullets,
        new_objects: after.new_objects,
        entity_ids: after.entity_ids,
        ..before
    })
}

impl World {
    /// Whether there are ids for all the shots that are about to be fired.
    pub fn can_steer(&self, now: Double) -> (can: bool)
        requires
            self.well_formed(),
        ensures
            can == (self.entity_ids.0 + 2 * shots_fired(
                ships_of(self.players@, self.live@),
                now,
                self.live@.len(),
            ) <= u32::MAX),
    {
        let ships = self.ships();
        let mut left: u32 = u32::MAX - self.entity_ids.0;
        for i in 0..ships.len()
            invariant
                left == u32::MAX - self.entity_ids.0 - 2 * shots_fired(ships@, now, i as nat),
                ships@ == ships_of(self.players@, self.live@),
        {
            if ships[i].controller.is_firing() && ships[i].fire_ready.less(now) {
                if left < 2 {
                    proof {
                        lemma_shots_grow(ships@, now, (i + 1) as nat, ships@.len());
                    }
                    return false;
                }
                left = left - 2;
            }
        }
        true
    }

    /// Lets the controls of all live ships act, and fires their bullets.
    ///
    /// `steerings` says for each live ship what its controls amount to. `ready_again` is the
    /// time after which a ship that fires now may fire again.
    pub fn steer(&mut self, steerings: &Vec<Steering>, now: Double, ready_again: Double)
        requires
            old(self).well_formed(),
            steerings@.len() == old(self).live@.len(),
            old(self).entity_ids.0 + 2 * shots_fired(
                ships_of(old(self).players@, old(self).live@),
                now,
                old(self).live@.len(),
            ) <= u32::MAX,
        ensures
            final(self).well_formed(),
            controls_acted(*old(self), steerings@, now, ready_again, *final(self)),
    {
        let ghost start = *self;
        let ghost ships = ships_of(start.players@, start.live@);
        let ghost first_id = start.entity_ids.0 as int;
        proof {
            live_players_are_known(self.players@, self.live@, self.spawning@, self.dead@);
            every_shot_is_announced(ships, steerings@, now, first_id, start.live@.len());
            assert(start.bullets@ + bullets_fired(ships, steerings@, now, first_id, 0)
                =~= start.bullets@);
            assert(start.new_objects@ + shots_announced(ships, steerings@, now, first_id, 0)
                =~= start.new_objects@);
        }
        let live_count: usize = self.live.len();
        for i in 0..live_count
            invariant
                start == *old(self),
                live_count == start.live@.len(),
                start.well_formed(),
                steerings@.len() == start.live@.len(),
                ships == ships_of(start.players@, start.live@),
                first_id == start.entity_ids.0,
                first_id + 2 * shots_fired(ships, now, start.live@.len()) <= u32::MAX,
                start.live@.no_duplicates(),
                forall|j: int|
                    0 <= j < start.live@.len() ==> start.players@.contains_key(
                        #[trigger] start.live@[j],
                    ),
                *self == (World {
                    players: self.players,
                    bullets: self.bullets,
                    new_objects: self.new_objects,
                    entity_ids: self.entity_ids,
                    ..start
                }),
                same_identities(start.players@, self.players@),
                ids_ok(self.players@, self.bullets@, self.entity_ids.0 as int),
                teams_ok(self.players@, self.bullets@, self.num_teams),
                self.bullets@ == start.bullets@ + bullets_fired(
                    ships,
                    steerings@,
                    now,
                    first_id,
                    i as nat,
                ),
                self.new_objects@ == start.new_objects@ + shots_announced(
                    ships,
                    steerings@,
                    now,
                    first_id,
                    i as nat,
                ),
                shots_announced(ships, steerings@, now, first_id, i as nat).len() == bullets_fired(
                    ships,
                    steerings@,
                    now,
                    first_id,
                    i as nat,
                ).len(),
                self.entity_ids.0 == first_id + 2 * bullets_fired(
                    ships,
                    steerings@,
                    now,
                    first_id,
                    i as nat,
                ).len(),
                forall|j: int|
                    0 <= j < i ==> self.players@[#[trigger] start.live@[j]] == steered(
                        start.players@[start.live@[j]],
                        steerings@[j],
                        now,
                        ready_again,
                    ),
                forall|j: int|
                    i <= j < start.live@.len() ==> self.players@[#[trigger] start.live@[j]]
                        == start.players@[start.live@[j]],
                forall|key: u64| #[trigger]
                    start.players@.contains_key(key) && !start.live@.contains(key)
                        ==> self.players@[key] == start.players@[key],
        {
            let ghost previous = *self;
            let ghost fired_before = bullets_fired(ships, steerings@, now, first_id, i as nat);
            let key: u64 = self.live[i];
            proof {
                assert(start.players@.contains_key(start.live@[i as int]));
                assert(self.players@.dom().contains(key));
                assert(ships[i as int] == start.players@[key]);
                lemma_shots_grow(ships, now, (i + 1) as nat, start.live@.len());
                every_shot_is_announced(ships, steerings@, now, first_id, (i + 1) as nat);
            }
            let mut ship: Player = *self.players.get(&key).unwrap();
            let steering = steerings[i];
            ship.shared.rotation = steering.rotation;
            ship.acceleration = steering.acceleration;
            if ship.controller.is_firing() && ship.fire_ready.less(now) {
                ship.fire_ready = ready_again;
                let shown_id: u32 = self.entity_ids.next();
                let shown = bullet(
                    shown_id,
                    &ship.shared,
                    steering.muzzle_position,
                    steering.muzzle_velocity,
                );
                self.new_objects.push(
                    NewObject {
                        id: shown.shared.entity_id,
                        time: now,
                        drawable: shown.drawable(),
                        initial_info: shown.shared.info(),
                    },
                );
                let bullet_id: u32 = self.entity_ids.next();
                let shot = bullet(
                    bullet_id,
                    &ship.shared,
                    steering.muzzle_position,
                    steering.muzzle_velocity,
                );
                self.bullets.push(shot);
                proof {
                    assert(shot == spec_bullet(
                        (first_id + 2 * fired_before.len() + 1) as u32,
                        ships[i as int].shared,
                        steering.muzzle_position,
                        steering.muzzle_velocity,
                    ));
                    assert(previous.players@.contains_key(key));
                    lemma_new_bullet(
                        previous.players@,
                        previous.bullets@,
                        previous.entity_ids.0 as int,
                        self.num_teams,
                        shot,
                    );
                    assert(self.bullets@ =~= start.bullets@ + bullets_fired(
                        ships,
                        steerings@,
                        now,
                        first_id,
                        (i + 1) as nat,
                    ));
                    assert(self.new_objects@ =~= start.new_objects@ + shots_announced(
                        ships,
                        steerings@,
                        now,
                        first_id,
                        (i + 1) as nat,
                    ));
                }
            }
            ship.shared.position = steering.position;
            self.players.insert(key, ship);
            proof {
                assert(self.players@.dom() =~= previous.players@.dom());
                assert(same_identities(previous.players@, self.players@));
                lemma_same_identities(
                    previous.players@,
                    self.players@,
                    self.bullets@,
                    self.entity_ids.0 as int,
                    self.num_teams,
                    u64::MAX as int,
                );
                assert(start.live@.contains(start.live@[i as int]));
            }
        }
        proof {
            lemma_same_identities(
                start.players@,
                self.players@,
                start.bullets@,
                first_id,
                self.num_teams,
                self.client_ids.0 as int,
            );
            assert forall|k: u64| #[trigger]
                times(self.live@, k) + times(self.spawning@, k) + times(dead_keys(self.dead@), k)
                    == if self.players@.contains_key(k) {
                    1nat
                } else {
                    0nat
                } by {
                assert(self.players@.contains_key(k) == start.players@.contains_key(k));
                assert(times(start.live@, k) == times(self.live@, k));
            }
        }
    }
}

/// A ship that has fired does not fire again before it is ready again.
pub proof fn shots_keep_their_distance(
    player: Player,
    steering: Steering,
    now: Double,
    ready_again: Double,
    later: Double,
)
    requires
        fires(player, now),
        fires(steered(player, steering, now, ready_again), later),
    ensures
        ready_again.below(later),
{
}

/// Each shot puts one bullet on the field and announces one object.
pub proof fn every_shot_is_announced(
    ships: Seq<Player>,
    steerings: Seq<Steering>,
    now: Double,
    first_id: int,
    n: nat,
)
    ensures
        bullets_fired(ships, steerings, now, first_id, n).len() == shots_announced(
            ships,
            steerings,
            now,
            first_id,
            n,
        ).len() == shots_fired(ships, now, n) <= n,
    decreases n,
{
    if n > 0 {
        every_shot_is_announced(ships, steerings, now, first_id, (n - 1) as nat);
    }
}

/// A ship that fires puts one bullet of its team on the field, at its muzzle, and announces it
/// at the time of the tick: as many ships as fire before it, so many bullets and announcements
/// stand before its own.
pub proof fn each_shot_is_one_bullet_of_its_team(
    ships: Seq<Player>,
    steerings: Seq<Steering>,
    now: Double,
    first_id: int,
    n: nat,
    i: int,
)
    requires
        0 <= i < n,
        fires(ships[i], now),
    ensures
        ({
            let place = shots_fired(ships, now, i as nat) as int;
            let fired = bullets_fired(ships, steerings, now, first_id, n);
            let told = shots_announced(ships, steerings, now, first_id, n);
            &&& place < fired.len()
            &&& fired[place].shared.owning_team == ships[i].shared.owning_team
            &&& fired[place].shared.position == steerings[i].muzzle_position
            &&& fired[place].shared.velocity == steerings[i].muzzle_velocity
            &&& told[place].time == now
            &&& told[place].drawable == fired[place].spec_drawable()
            &&& told[place].initial_info == fired[place].shared.spec_info()
        }),
    decreases n,
{
    every_shot_is_announced(ships, steerings, now, first_id, n);
    every_shot_is_announced(ships, steerings, now, first_id, (n - 1) as nat);
    if i < n - 1 {
        each_shot_is_one_bullet_of_its_team(
            ships,
            steerings,
            now,
            first_id,
            (n - 1) as nat,
            i,
        );
    }
}

} // verus!
