//! What the hits of a tick do to the server.
use crate::double::Double;
use crate::entity::{Bullet, EntityId, Player, Team};
use crate::graveyard::{dead_keys, in_order, ordering_keeps_players, sort_by_time, DeadPlayer};
use crate::hits::{
    add_scores, all_hits, count_points, distinct, each_victim_dies_once, find_hits, is_among, killers_of,
    points_are_for_hitting_enemies, scores_after, settle, tally, victims_are_on_the_field,
    victims_of, Distances,
};
use crate::packets::UpdateScore;
use crate::retain::{
    kept, kept_places, removed, retaining_keeps_order, retaining_loses_nothing, RetainTools,
};
use crate::world::{
    ids_ok, is_team, lemma_fewer_bullets, lemma_times_of_concat, live_players_are_known, roster_ok,
    ships_of, teams_ok, times, World,
};
use vstd::prelude::*;

verus! {

broadcast use vstd::std_specs::hash::group_hash_axioms;

/// For each of so many live ships, whether it is not among the victims.
pub open spec fn surviving_ships(victims: Seq<EntityId>, ships: nat) -> Seq<bool> {
    Seq::new(ships, |i: int| !victims.contains(EntityId::Player(i as usize)))
}

/// For each of so many bullets, whether it is not among the victims.
pub open spec fn surviving_bullets(victims: Seq<EntityId>, bullets: nat) -> Seq<bool> {
    Seq::new(bullets, |i: int| !victims.contains(EntityId::Bullet(i as usize)))
}

/// The id of a ship or bullet on the field.
pub open spec fn entity_id_of(
    ships: Seq<Player>,
    bullets: Seq<Bullet>,
    entity: EntityId,
) -> u32 {
    match entity {
        EntityId::Player(i) => ships[i as int].shared.entity_id,
        EntityId::Bullet(i) => bullets[i as int].shared.entity_id,
    }
}

/// The ids of some ships and bullets on the field.
pub open spec fn ids_of(
    ships: Seq<Player>,
    bullets: Seq<Bullet>,
    entities: Seq<EntityId>,
) -> Seq<u32> {
    entities.map_values(|e: EntityId| entity_id_of(ships, bullets, e))
}

/// Players who die at a given time.
pub open spec fn newly_dead(fallen: Seq<u64>, now: Double, respawn_at: Double) -> Seq<DeadPlayer> {
    fallen.map_values(|player: u64| DeadPlayer { since: now, respawn_at, player })
}

/// The list of dead players after more have died. It is put in order only if there are more.
pub open spec fn dead_after(
    dead: Seq<DeadPlayer>,
    fallen: Seq<u64>,
    now: Double,
    respawn_at: Double,
) -> Seq<DeadPlayer> {
    if fallen.len() == 0 {
        dead
    } else {
        in_order(dead + newly_dead(fallen, now, respawn_at))
    }
}

/// Every team that can score has a score: two teams that fight are both in play.
pub proof fn killers_have_scores(
    players: Map<u64, Player>,
    live: Seq<u64>,
    bullets: Seq<Bullet>,
    distances: Distances,
    num_teams: usize,
    killer: Team,
)
    requires
        teams_ok(players, bullets, num_teams),
        forall|i: int| 0 <= i < live.len() ==> players.contains_key(#[trigger] live[i]),
        killers_of(all_hits(ships_of(players, live), bullets, distances)).contains(killer),
    ensures
        killer.0 < num_teams,
{
    let ships = ships_of(players, live);
    points_are_for_hitting_enemies(ships, bullets, distances, killer);
    let (p, b) = choose|p: int, b: int|
        {
            &&& 0 <= p < ships.len()
            &&& 0 <= b < bullets.len()
            &&& #[trigger] crate::hits::bullet_hits_ship(ships, bullets, distances.to_bullets@, p, b)
            &&& bullets[b].shared.owning_team == killer
            &&& ships[p].shared.owning_team != killer
        };
    assert(players.contains_key(live[p]));
    assert(is_team(bullets[b].shared.owning_team, num_teams));
    assert(is_team(ships[p].shared.owning_team, num_teams));
}

proof fn lemma_fallen_move_to_the_dead(
    players: Map<u64, Player>,
    live: Seq<u64>,
    spawning: Seq<u64>,
    dead: Seq<DeadPlayer>,
    keep: Seq<bool>,
    now: Double,
    respawn_at: Double,
)
    requires
        keep.len() == live.len(),
        roster_ok(players, live, spawning, dead),
    ensures
        roster_ok(
            players,
            kept(live, keep),
            spawning,
            dead_after(dead, removed(live, keep), now, respawn_at),
        ),
{
    let fallen = removed(live, keep);
    let after = dead_after(dead, fallen, now, respawn_at);
    let joined = dead + newly_dead(fallen, now, respawn_at);
    retaining_loses_nothing(live, keep);
    assert(dead_keys(newly_dead(fallen, now, respawn_at)) =~= fallen);
    assert(dead_keys(joined) =~= dead_keys(dead) + fallen);
    assert forall|key: u64| #[trigger]
        times(kept(live, keep), key) + times(spawning, key) + times(dead_keys(after), key)
            == if players.contains_key(key) {
            1nat
        } else {
            0nat
        } by {
        assert(times(live, key) == times(kept(live, keep), key) + times(fallen, key));
        lemma_times_of_concat(dead_keys(dead), fallen, key);
        if fallen.len() == 0 {
            assert(fallen =~= Seq::empty());
            assert(times(fallen, key) == 0) by {
                broadcast use vstd::seq_lib::group_to_multiset_ensures;

            }
        } else {
            ordering_keeps_players(joined);
        }
    }
}

fn move_to_the_dead(
    dead: &mut Vec<DeadPlayer>,
    fallen: &Vec<u64>,
    now: Double,
    respawn_at: Double,
)
    ensures
        final(dead)@ == dead_after(old(dead)@, fallen@, now, respawn_at),
{
    let ghost start = dead@;
    for i in 0..fallen.len()
        invariant
            dead@ == start + newly_dead(fallen@.take(i as int), now, respawn_at),
    {
        dead.push(DeadPlayer { since: now, respawn_at, player: fallen[i] });
        assert(dead@ =~= start + newly_dead(fallen@.take(i + 1), now, respawn_at));
    }
    assert(fallen@.take(fallen@.len() as int) =~= fallen@);
    if fallen.len() > 0 {
        sort_by_time(dead);
    } else {
        assert(dead@ =~= start);
    }
}

/// Whether no score grows past the largest number.
pub open spec fn points_fit(scores: Seq<u32>, killers: Seq<Team>) -> bool {
    forall|t: int| 0 <= t < scores.len() ==> #[trigger] scores[t] + tally(killers, t) <= u32::MAX
}

/// The server after the hits of a tick have had their effect.
pub open spec fn fought(
    before: World,
    distances: Distances,
    now: Double,
    respawn_at: Double,
    after: World,
) -> bool {
    let ships = ships_of(before.players@, before.live@);
    let hits = all_hits(ships, before.bullets@, distances);
    let victims = distinct(victims_of(hits));
    let keep = surviving_ships(victims, before.live@.len());
    &&& after.scores@ == scores_after(before.scores@, killers_of(hits))
    &&& after.deleted@ == before.deleted@ + ids_of(ships, before.bullets@, victims)
    &&& after.live@ == kept(before.live@, keep)
    &&& after.dead@ == dead_after(before.dead@, removed(before.live@, keep), now, respawn_at)
    &&& after.bullets@ == kept(
        before.bullets@,
        surviving_bullets(victims, before.bullets@.len()),
    )
    &&& after == (World {
        scores: after.scores,
        deleted: after.deleted,
        live: after.live,
        dead: after.dead,
        bullets: after.bullets,
        ..before
    })
}

/// Whether the new scores are handed back exactly where the hits of a tick score.
pub open spec fn scores_told(
    before: World,
    distances: Distances,
    news: Option<UpdateScore>,
    after: World,
) -> bool {
    let killers = killers_of(
        all_hits(ships_of(before.players@, before.live@), before.bullets@, distances),
    );
    match news {
        Some(update) => killers.len() > 0 && update.scores@ == after.scores@,
        None => killers.len() == 0,
    }
}

impl World {
    /// Whether the scores can hold the points that the hits of a tick are worth.
    pub fn can_collide(&self, distances: &Distances) -> (can: bool)
        requires
            self.well_formed(),
            distances.fits(self.live@.len(), self.bullets@.len()),
        ensures
            can == points_fit(
                self.scores@,
                killers_of(
                    all_hits(ships_of(self.players@, self.live@), self.bullets@, *distances),
                ),
            ),
    {
        let ships = self.ships();
        let hits = find_hits(&ships, &self.bullets, distances);
        let (killing_teams, _) = settle(&hits);
        let scores = self.scores.as_slice();
        for t in 0..scores.len()
            invariant
                scores@ == self.scores@,
                killing_teams@ == killers_of(
                    all_hits(ships_of(self.players@, self.live@), self.bullets@, *distances),
                ),
                forall|u: int|
                    0 <= u < t ==> #[trigger] scores@[u] + tally(killing_teams@, u) <= u32::MAX,
        {
            let points: usize = count_points(&killing_teams, t);
            let room: u32 = u32::MAX - scores[t];
            if points as u64 > room as u64 {
                assert(self.scores@[t as int] + tally(killing_teams@, t as int) > u32::MAX);
                return false;
            }
        }
        true
    }

    /// Finds the hits of a tick and lets them have their effect: killers score, what is hit
    /// leaves the field, and players who were hit wait for their next ship. The new scores are
    /// handed back if anybody has scored.
    pub fn collide(&mut self, distances: &Distances, now: Double, respawn_at: Double) -> (news:
        Option<UpdateScore>)
        requires
            old(self).well_formed(),
            distances.fits(old(self).live@.len(), old(self).bullets@.len()),
            points_fit(
                old(self).scores@,
                killers_of(
                    all_hits(
                        ships_of(old(self).players@, old(self).live@),
                        old(self).bullets@,
                        *distances,
                    ),
                ),
            ),
        ensures
            final(self).well_formed(),
            fought(*old(self), *distances, now, respawn_at, *final(self)),
            scores_told(*old(self), *distances, news, *final(self)),
    {
        let ghost start = *self;
        let ships = self.ships();
        let hits = find_hits(&ships, &self.bullets, distances);
        let (killing_teams, dead_entities) = settle(&hits);
        let ghost victims = distinct(victims_of(hits@));
        proof {
            live_players_are_known(self.players@, self.live@, self.spawning@, self.dead@);
            assert forall|i: int| 0 <= i < killing_teams@.len() implies (
            #[trigger] killing_teams@[i]).0 < self.scores@.len() by {
                assert(killing_teams@.contains(killing_teams@[i]));
                killers_have_scores(
                    self.players@,
                    self.live@,
                    self.bullets@,
                    *distances,
                    self.num_teams,
                    killing_teams@[i],
                );
            }
            each_victim_dies_once(victims_of(hits@));
            assert(ships@.len() == ships.len() && start.bullets@.len() == start.bullets.len());
            assert forall|i: int| 0 <= i < victims.len() implies match #[trigger] victims[i] {
                EntityId::Player(p) => p < ships@.len(),
                EntityId::Bullet(b) => b < start.bullets@.len(),
            } by {
                assert(victims.contains(victims[i]));
                assert(victims_of(hits@).contains(victims[i]));
                victims_are_on_the_field(ships@, start.bullets@, *distances, victims[i]);
            }
        }
        add_scores(&mut self.scores, &killing_teams);
        let news = if killing_teams.len() > 0 {
            Some(UpdateScore { scores: self.scores.duplicate() })
        } else {
            None
        };
        let ghost id_of = |e: EntityId| entity_id_of(ships@, start.bullets@, e);
        assert(self.deleted@ =~= start.deleted@ + victims.take(0).map_values(id_of));
        for i in 0..dead_entities.len()
            invariant
                dead_entities@ == victims,
                id_of == (|e: EntityId| entity_id_of(ships@, start.bullets@, e)),
                forall|j: int|
                    0 <= j < victims.len() ==> match #[trigger] victims[j] {
                        EntityId::Player(p) => p < ships@.len(),
                        EntityId::Bullet(b) => b < start.bullets@.len(),
                    },
                *self == (World { scores: self.scores, deleted: self.deleted, ..start }),
                self.scores@ == scores_after(start.scores@, killing_teams@),
                self.deleted@ == start.deleted@ + victims.take(i as int).map_values(id_of),
        {
            assert(match victims[i as int] {
                EntityId::Player(p) => p < ships@.len(),
                EntityId::Bullet(b) => b < start.bullets@.len(),
            });
            let gone: u32 = match dead_entities[i] {
                EntityId::Player(p) => ships[p].shared.entity_id,
                EntityId::Bullet(b) => self.bullets[b].shared.entity_id,
            };
            self.deleted.push(gone);
            assert(self.deleted@ =~= start.deleted@ + victims.take(i + 1).map_values(id_of));
        }
        assert(victims.take(victims.len() as int) =~= victims);
        let ghost keep = surviving_ships(victims, start.live@.len());
        let ghost keep_bullets = surviving_bullets(victims, start.bullets@.len());
        let ship_survives = |i: usize| -> (stays: bool)
            ensures
                stays == !dead_entities@.contains(EntityId::Player(i)),
            { !is_among(&dead_entities, EntityId::Player(i)) };
        let fallen = self.live.retain_index(ship_survives);
        proof {
            let answers = choose|answers: Seq<bool>|
                {
                    &&& answers.len() == start.live@.len()
                    &&& forall|i: int|
                        0 <= i < answers.len() ==> call_ensures(
                            ship_survives,
                            (i as usize,),
                            #[trigger] answers[i],
                        )
                    &&& self.live@ == #[trigger] kept(start.live@, answers)
                    &&& fallen@ == removed(start.live@, answers)
                };
            assert(answers =~= keep);
        }
        move_to_the_dead(&mut self.dead, &fallen, now, respawn_at);
        let bullet_survives = |i: usize| -> (stays: bool)
            ensures
                stays == !dead_entities@.contains(EntityId::Bullet(i)),
            { !is_among(&dead_entities, EntityId::Bullet(i)) };
        let _spent = self.bullets.retain_index(bullet_survives);
        proof {
            let answers = choose|answers: Seq<bool>|
                {
                    &&& answers.len() == start.bullets@.len()
                    &&& forall|i: int|
                        0 <= i < answers.len() ==> call_ensures(
                            bullet_survives,
                            (i as usize,),
                            #[trigger] answers[i],
                        )
                    &&& self.bullets@ == #[trigger] kept(start.bullets@, answers)
                    &&& _spent@ == removed(start.bullets@, answers)
                };
            assert(answers =~= keep_bullets);
            lemma_fallen_move_to_the_dead(
                start.players@,
                start.live@,
                start.spawning@,
                start.dead@,
                keep,
                now,
                respawn_at,
            );
            lemma_fewer_bullets(
                start.players@,
                start.bullets@,
                keep_bullets,
                start.entity_ids.0 as int,
                start.num_teams,
            );
        }
        news
    }
}

/// What is hit is off the field afterwards: no ship or bullet that is left has the id of a
/// victim, so the ids that clients are told to delete are those of objects that are gone.
pub proof fn victims_leave_the_field(
    players: Map<u64, Player>,
    live: Seq<u64>,
    bullets: Seq<Bullet>,
    next: int,
    victims: Seq<EntityId>,
    victim: EntityId,
)
    requires
        ids_ok(players, bullets, next),
        live.len() <= usize::MAX,
        bullets.len() <= usize::MAX,
        forall|i: int| 0 <= i < live.len() ==> players.contains_key(#[trigger] live[i]),
        live.no_duplicates(),
        victims.contains(victim),
        match victim {
            EntityId::Player(i) => i < live.len(),
            EntityId::Bullet(i) => i < bullets.len(),
        },
    ensures
        ({
            let gone = entity_id_of(ships_of(players, live), bullets, victim);
            let ships = kept(live, surviving_ships(victims, live.len()));
            let rest = kept(bullets, surviving_bullets(victims, bullets.len()));
            &&& forall|k: int|
                0 <= k < ships.len() ==> players[#[trigger] ships[k]].shared.entity_id != gone
            &&& forall|k: int|
                0 <= k < rest.len() ==> (#[trigger] rest[k]).shared.entity_id != gone
        }),
{
    let gone = entity_id_of(ships_of(players, live), bullets, victim);
    let keep_ships = surviving_ships(victims, live.len());
    let keep_bullets = surviving_bullets(victims, bullets.len());
    let ships = kept(live, keep_ships);
    let rest = kept(bullets, keep_bullets);
    retaining_keeps_order(live, keep_ships);
    retaining_keeps_order(bullets, keep_bullets);
    assert forall|k: int| 0 <= k < ships.len() implies players[#[trigger] ships[k]].shared.entity_id
        != gone by {
        let place = kept_places(keep_ships)[k];
        assert(keep_ships[place]);
        assert(players.contains_key(live[place]));
        if let EntityId::Player(i) = victim {
            assert(i as int != place);
            assert(players.contains_key(live[i as int]));
        }
    }
    assert forall|k: int| 0 <= k < rest.len() implies (#[trigger] rest[k]).shared.entity_id
        != gone by {
        let place = kept_places(keep_bullets)[k];
        assert(keep_bullets[place]);
        match victim {
            EntityId::Player(i) => {
                assert(players.contains_key(live[i as int]));
                assert(bullets[place].shared.entity_id != gone);
            },
            EntityId::Bullet(i) => {
                assert(i as int != place);
                if (i as int) < place {
                    assert(bullets[i as int].shared.entity_id != bullets[place].shared.entity_id);
                } else {
                    assert(bullets[place].shared.entity_id != bullets[i as int].shared.entity_id);
                }
            },
        }
    }
}

} // verus!
