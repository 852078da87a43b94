//! What holds of the server over any number of steps.
use crate::battle::{fought, ids_of, newly_dead, surviving_ships};
use crate::controller::ControllerState;
use crate::double::{Double, Vec2};
use crate::entity::FIRST_SHOT;
use crate::entity::{Entity, GameEntity, Player};
use crate::graveyard::{dead_keys, ordering_loses_nobody, waiting, DeadPlayer};
use crate::hits::{all_hits, distinct, victims_of, Distances};
use crate::lobby::{heard, joining_changes_nobody_else, players_joined, team_sizes, welcomed};
use crate::motion::{everything_moved, Motion};
use crate::packets::{ClientMessage, NewObject};
use crate::report::{clients_told, Broadcast};
use crate::retain::{kept, removed};
use crate::spawn::{is_blocked, lined_up, respawned, tried_to_enter};
use crate::steering::{controls_acted, fires, shots_announced, steered, Steering};
use crate::teams::{team_size, teams_in_play};
use crate::tick::{step_after, Step};
use crate::world::{
    announcement, lemma_times_of_member, live_players_are_known, player_key, ships_of, times, World,
};
use vstd::prelude::*;

verus! {

/// Something that the server does in a step, with what it is handed for it and what it hands
/// back.
pub enum Deed {
    Release { now: Double },
    Spawn { position: Vec2, to_ships: Seq<Double>, now: Double, placed: bool },
    Steer { steerings: Seq<Steering>, now: Double, ready_again: Double },
    Collide { distances: Distances, now: Double, respawn_at: Double },
    Advance { ships: Seq<Motion>, bullets: Seq<Motion> },
    Listen { client: u32, message: ClientMessage },
    Welcome { message: ClientMessage },
    Broadcast { now: Double, messages: Option<Broadcast> },
}

/// The step that a deed belongs to.
pub open spec fn step_of(deed: Deed) -> Step {
    match deed {
        Deed::Release { .. } => Step::Release,
        Deed::Spawn { .. } => Step::Spawn,
        Deed::Steer { .. } => Step::Steer,
        Deed::Collide { .. } => Step::Collide,
        Deed::Advance { .. } => Step::Advance,
        Deed::Listen { .. } => Step::Listen,
        Deed::Welcome { .. } => Step::Welcome,
        Deed::Broadcast { .. } => Step::Broadcast,
    }
}

/// Whether a deed takes the server from one state to another.
pub open spec fn done(before: World, deed: Deed, after: World) -> bool {
    &&& before.well_formed()
    &&& after.well_formed()
    &&& match deed {
        Deed::Release { now } => lined_up(before, now, after),
        Deed::Spawn { position, to_ships, now, placed } => {
            &&& before.spawning@.len() > 0
            &&& tried_to_enter(before, position, to_ships, now, placed, after)
        },
        Deed::Steer { steerings, now, ready_again } => controls_acted(
            before,
            steerings,
            now,
            ready_again,
            after,
        ),
        Deed::Collide { distances, now, respawn_at } => fought(
            before,
            distances,
            now,
            respawn_at,
            after,
        ),
        Deed::Advance { ships, bullets } => everything_moved(before, ships, bullets, after),
        Deed::Listen { client, message } => heard(before, client, message, after),
        Deed::Welcome { message } => welcomed(before, message, after),
        Deed::Broadcast { now, messages } => clients_told(before, now, messages, after),
    }
}

/// Whether the server goes through some states by doing some deeds.
pub open spec fn is_run(worlds: Seq<World>, deeds: Seq<Deed>) -> bool {
    &&& worlds.len() == deeds.len() + 1
    &&& worlds[0].well_formed()
    &&& forall|i: int| 0 <= i < deeds.len() ==> done(worlds[i], #[trigger] deeds[i], worlds[i + 1])
}

proof fn lemma_run_step(worlds: Seq<World>, deeds: Seq<Deed>, i: int)
    requires
        is_run(worlds, deeds),
        0 <= i < deeds.len(),
    ensures
        done(worlds[i], deeds[i], worlds[i + 1]),
{
    assert(done(worlds[i], deeds[i], worlds[i + 1]));
}

// What the clients are told.
/// The announcements that a deed adds to those that wait to be sent.
pub open spec fn announced_by(before: World, deed: Deed) -> Seq<NewObject> {
    match deed {
        Deed::Spawn { position, to_ships, now, placed } => if placed {
            let ship = respawned(before.players@[before.spawning@[0]], position);
            seq![announcement(ship.shared, ship.spec_drawable(), now)]
        } else {
            Seq::empty()
        },
        Deed::Steer { steerings, now, ready_again } => shots_announced(
            ships_of(before.players@, before.live@),
            steerings,
            now,
            before.entity_ids.0 as int,
            before.live@.len(),
        ),
        _ => Seq::empty(),
    }
}

/// The deletions that a deed adds to those that wait to be sent.
pub open spec fn deleted_by(before: World, deed: Deed) -> Seq<u32> {
    match deed {
        Deed::Collide { distances, now, respawn_at } => {
            let ships = ships_of(before.players@, before.live@);
            ids_of(
                ships,
                before.bullets@,
                distinct(victims_of(all_hits(ships, before.bullets@, distances))),
            )
        },
        _ => Seq::empty(),
    }
}

/// The announcements that a deed sends to the clients.
pub open spec fn news_sent_by(deed: Deed) -> Seq<NewObject> {
    match deed {
        Deed::Broadcast { now, messages: Some(sent) } => match sent.add_remove {
            Some(changes) => changes.new@,
            None => Seq::empty(),
        },
        _ => Seq::empty(),
    }
}

/// The deletions that a deed sends to the clients.
pub open spec fn deletions_sent_by(deed: Deed) -> Seq<u32> {
    match deed {
        Deed::Broadcast { now, messages: Some(sent) } => match sent.add_remove {
            Some(changes) => changes.deleted@,
            None => Seq::empty(),
        },
        _ => Seq::empty(),
    }
}

/// All announcements up to the first `n` deeds, those that waited at the start first.
pub open spec fn all_announced(worlds: Seq<World>, deeds: Seq<Deed>, n: nat) -> Seq<NewObject>
    decreases n,
{
    if n == 0 {
        worlds[0].new_objects@
    } else {
        all_announced(worlds, deeds, (n - 1) as nat) + announced_by(worlds[n - 1], deeds[n - 1])
    }
}

/// All deletions up to the first `n` deeds, those that waited at the start first.
pub open spec fn all_deleted(worlds: Seq<World>, deeds: Seq<Deed>, n: nat) -> Seq<u32>
    decreases n,
{
    if n == 0 {
        worlds[0].deleted@
    } else {
        all_deleted(worlds, deeds, (n - 1) as nat) + deleted_by(worlds[n - 1], deeds[n - 1])
    }
}

/// The announcements that the first `n` deeds send, in order.
pub open spec fn news_sent(deeds: Seq<Deed>, n: nat) -> Seq<NewObject>
    decreases n,
{
    if n == 0 {
        Seq::empty()
    } else {
        news_sent(deeds, (n - 1) as nat) + news_sent_by(deeds[n - 1])
    }
}

/// The deletions that the first `n` deeds send, in order.
pub open spec fn deletions_sent(deeds: Seq<Deed>, n: nat) -> Seq<u32>
    decreases n,
{
    if n == 0 {
        Seq::empty()
    } else {
        deletions_sent(deeds, (n - 1) as nat) + deletions_sent_by(deeds[n - 1])
    }
}

proof fn lemma_queues_over_step(before: World, deed: Deed, after: World)
    requires
        done(before, deed, after),
    ensures
        news_sent_by(deed) + after.new_objects@ == before.new_objects@ + announced_by(before, deed),
        deletions_sent_by(deed) + after.deleted@ == before.deleted@ + deleted_by(before, deed),
{
    assert(news_sent_by(deed) + after.new_objects@ =~= before.new_objects@ + announced_by(
        before,
        deed,
    ));
    assert(deletions_sent_by(deed) + after.deleted@ =~= before.deleted@ + deleted_by(before, deed));
}

/// Everything that appears or is gone is told to the clients once, and in order: what has been
/// sent, followed by what waits to be sent, is all that there was to tell. So what has been sent
/// is the beginning of it; nothing is lost, repeated or told out of order.
pub proof fn clients_are_told_everything_once(worlds: Seq<World>, deeds: Seq<Deed>, n: nat)
    requires
        is_run(worlds, deeds),
        n <= deeds.len(),
    ensures
        news_sent(deeds, n) + worlds[n as int].new_objects@ == all_announced(worlds, deeds, n),
        deletions_sent(deeds, n) + worlds[n as int].deleted@ == all_deleted(worlds, deeds, n),
        news_sent(deeds, n) == all_announced(worlds, deeds, n).take(
            news_sent(deeds, n).len() as int,
        ),
        deletions_sent(deeds, n) == all_deleted(worlds, deeds, n).take(
            deletions_sent(deeds, n).len() as int,
        ),
    decreases n,
{
    if n > 0 {
        let m = (n - 1) as nat;
        clients_are_told_everything_once(worlds, deeds, m);
        lemma_run_step(worlds, deeds, m as int);
        let (before, deed, after) = (worlds[m as int], deeds[m as int], worlds[n as int]);
        lemma_queues_over_step(before, deed, after);
        let (sent, by) = (news_sent(deeds, m), news_sent_by(deed));
        assert((sent + by) + after.new_objects@ =~= sent + (by + after.new_objects@));
        assert((sent + before.new_objects@) + announced_by(before, deed) =~= sent + (
        before.new_objects@ + announced_by(before, deed)));
        let (gone, by) = (deletions_sent(deeds, m), deletions_sent_by(deed));
        assert((gone + by) + after.deleted@ =~= gone + (by + after.deleted@));
        assert((gone + before.deleted@) + deleted_by(before, deed) =~= gone + (before.deleted@
            + deleted_by(before, deed)));
    } else {
        assert(news_sent(deeds, n) + worlds[0].new_objects@ =~= worlds[0].new_objects@);
        assert(deletions_sent(deeds, n) + worlds[0].deleted@ =~= worlds[0].deleted@);
    }
    assert(news_sent(deeds, n) =~= all_announced(worlds, deeds, n).take(
        news_sent(deeds, n).len() as int,
    ));
    assert(deletions_sent(deeds, n) =~= all_deleted(worlds, deeds, n).take(
        deletions_sent(deeds, n).len() as int,
    ));
}

/// Where a player is on the field when the clients are told, they have then been told all there
/// was to tell; where nobody is, they are told nothing and all is kept. A message about what has
/// appeared or gone is never empty.
pub proof fn clients_are_up_to_date_while_somebody_plays(
    worlds: Seq<World>,
    deeds: Seq<Deed>,
    i: int,
)
    requires
        is_run(worlds, deeds),
        0 <= i < deeds.len(),
        deeds[i] is Broadcast,
    ensures
        worlds[i].live@.len() > 0 ==> {
            &&& news_sent(deeds, (i + 1) as nat) == all_announced(worlds, deeds, (i + 1) as nat)
            &&& deletions_sent(deeds, (i + 1) as nat) == all_deleted(worlds, deeds, (i + 1) as nat)
        },
        worlds[i].live@.len() == 0 ==> deeds[i]->messages is None && worlds[i + 1] == worlds[i],
        deeds[i]->messages matches Some(sent) ==> (sent.add_remove matches Some(changes)
            ==> changes.new@.len() + changes.deleted@.len() > 0),
{
    lemma_run_step(worlds, deeds, i);
    clients_are_told_everything_once(worlds, deeds, (i + 1) as nat);
    if worlds[i].live@.len() > 0 {
        let n = (i + 1) as nat;
        assert(worlds[i + 1].new_objects@ =~= Seq::empty());
        assert(worlds[i + 1].deleted@ =~= Seq::empty());
        assert(news_sent(deeds, n) + worlds[i + 1].new_objects@ =~= news_sent(deeds, n));
        assert(deletions_sent(deeds, n) + worlds[i + 1].deleted@ =~= deletions_sent(deeds, n));
    }
}

// The players.
/// Whether a deed is a shot of a player: the player is on the field and fires.
pub open spec fn shoots(before: World, deed: Deed, key: u64) -> bool {
    &&& deed is Steer
    &&& before.live@.contains(key)
    &&& fires(before.players@[key], deed->Steer_now)
}

proof fn lemma_joined_players_are_new(
    players: Map<u64, Player>,
    sizes: Seq<u32>,
    client: u32,
    first_id: int,
    n: nat,
    key: u64,
)
    requires
        !players.contains_key(key),
        players_joined(players, sizes, client, first_id, n).contains_key(key),
    ensures
        players_joined(players, sizes, client, first_id, n)[key].fire_ready == (Double {
            bits: FIRST_SHOT,
        }),
    decreases n,
{
    if n > 0 {
        let i = (n - 1) as nat;
        if key != player_key(client, i as u32) {
            lemma_joined_players_are_new(players, sizes, client, first_id, i, key);
        }
    }
}

proof fn lemma_player_over_step(before: World, deed: Deed, after: World, key: u64)
    requires
        done(before, deed, after),
    ensures
        after.num_teams == before.num_teams,
        before.players@.contains_key(key) ==> {
            &&& after.players@.contains_key(key)
            &&& after.players@[key].shared.entity_id == before.players@[key].shared.entity_id
            &&& after.players@[key].shared.owning_team == before.players@[key].shared.owning_team
            &&& after.players@[key].fire_ready == if shoots(before, deed, key) {
                deed->ready_again
            } else {
                before.players@[key].fire_ready
            }
        },
        after.players@.contains_key(key) && !before.players@.contains_key(key)
            ==> after.players@[key].fire_ready == (Double { bits: FIRST_SHOT }),
{
    live_players_are_known(before.players@, before.live@, before.spawning@, before.dead@);
    assert(before.players@.contains_key(key) == before.players@.dom().contains(key));
    assert(after.players@.contains_key(key) == after.players@.dom().contains(key));
    match deed {
        Deed::Spawn { position, to_ships, now, placed } => {
            let first = before.spawning@[0];
            lemma_times_of_member(before.spawning@, 0);
            assert(times(before.live@, first) + times(before.spawning@, first) + times(
                dead_keys(before.dead@),
                first,
            ) > 0);
        },
        Deed::Steer { steerings, now, ready_again } => {
            if before.live@.contains(key) {
                let i = choose|i: int| 0 <= i < before.live@.len() && before.live@[i] == key;
                assert(after.players@[before.live@[i]] == steered(
                    before.players@[before.live@[i]],
                    steerings[i],
                    now,
                    ready_again,
                ));
            }
        },
        Deed::Advance { ships, bullets } => {
            if before.live@.contains(key) {
                let i = choose|i: int| 0 <= i < before.live@.len() && before.live@[i] == key;
                assert(after.players@.contains_key(before.live@[i]));
            }
        },
        Deed::Welcome { message: ClientMessage::Handshake(handshake) } => {
            let n = handshake.requested_players as nat;
            let sizes = team_sizes(before.players@, before.num_teams);
            let (client, first_id) = (before.client_ids.0, before.entity_ids.0 as int);
            joining_changes_nobody_else(before.players@, sizes, client, first_id, n);
            if after.players@.contains_key(key) && !before.players@.contains_key(key) {
                lemma_joined_players_are_new(before.players@, sizes, client, first_id, n, key);
            }
        },
        _ => {},
    }
}

/// A player who has joined stays, with the same ship and in the same team, whoever joins later.
pub proof fn players_stay_what_they_are(
    worlds: Seq<World>,
    deeds: Seq<Deed>,
    i: int,
    j: int,
    key: u64,
)
    requires
        is_run(worlds, deeds),
        0 <= i <= j < worlds.len(),
        worlds[i].players@.contains_key(key),
    ensures
        worlds[j].num_teams == worlds[i].num_teams,
        worlds[j].players@.contains_key(key),
        worlds[j].players@[key].shared.entity_id == worlds[i].players@[key].shared.entity_id,
        worlds[j].players@[key].shared.owning_team == worlds[i].players@[key].shared.owning_team,
    decreases j - i,
{
    if i < j {
        players_stay_what_they_are(worlds, deeds, i, j - 1, key);
        lemma_run_step(worlds, deeds, j - 1);
        lemma_player_over_step(worlds[j - 1], deeds[j - 1], worlds[j], key);
    }
}

proof fn lemma_same_number_of_teams(worlds: Seq<World>, deeds: Seq<Deed>, n: int)
    requires
        is_run(worlds, deeds),
        0 <= n < worlds.len(),
    ensures
        worlds[n].num_teams == worlds[0].num_teams,
        worlds[n].well_formed(),
    decreases n,
{
    if n > 0 {
        lemma_same_number_of_teams(worlds, deeds, n - 1);
        lemma_run_step(worlds, deeds, n - 1);
        lemma_player_over_step(worlds[n - 1], deeds[n - 1], worlds[n], 0);
    }
}

/// Whoever joins and however many players they bring, at any time every player is in one of the
/// teams, and no team has more than one player more than another.
pub proof fn teams_are_always_balanced(worlds: Seq<World>, deeds: Seq<Deed>, n: int)
    requires
        is_run(worlds, deeds),
        0 <= n < worlds.len(),
        1 <= worlds[0].num_teams <= 255,
    ensures
        forall|key: u64| #[trigger]
            worlds[n].players@.contains_key(key) ==> worlds[n].players@[key].shared.owning_team.0
                < worlds[0].num_teams,
        forall|t: int, u: int|
            0 <= t < worlds[0].num_teams && 0 <= u < worlds[0].num_teams ==> #[trigger] team_size(
                worlds[n].players@,
                t,
            ) <= #[trigger] team_size(worlds[n].players@, u) + 1,
{
    lemma_same_number_of_teams(worlds, deeds, n);
    assert(teams_in_play(worlds[0].num_teams) == worlds[0].num_teams);
}

// The shots.
/// Whether the clock never goes back from one tick to a later one.
pub open spec fn clock_never_goes_back(deeds: Seq<Deed>) -> bool {
    forall|i: int, j: int|
        0 <= i < j < deeds.len() && #[trigger] deeds[i] is Steer && #[trigger] deeds[j] is Steer
            ==> !deeds[j]->Steer_now.below(deeds[i]->Steer_now)
}

/// Whether a player has fired between two times, at a moment later than a given one.
pub open spec fn has_fired_since(
    worlds: Seq<World>,
    deeds: Seq<Deed>,
    from: int,
    to: int,
    key: u64,
    moment: Double,
) -> bool {
    exists|k: int|
        {
            &&& from <= k < to
            &&& shoots(worlds[k], #[trigger] deeds[k], key)
            &&& moment.below(deeds[k]->Steer_now)
        }
}

proof fn lemma_shooter_is_known(world: World, deed: Deed, key: u64)
    requires
        world.well_formed(),
        shoots(world, deed, key),
    ensures
        world.players@.contains_key(key),
{
    live_players_are_known(world.players@, world.live@, world.spawning@, world.dead@);
    let place = choose|place: int| 0 <= place < world.live@.len() && world.live@[place] == key;
    assert(world.players@.contains_key(world.live@[place]));
}

proof fn lemma_ready_time(
    worlds: Seq<World>,
    deeds: Seq<Deed>,
    from: int,
    to: int,
    key: u64,
    ready: Double,
)
    requires
        is_run(worlds, deeds),
        0 <= from <= to < worlds.len(),
        worlds[from].players@.contains_key(key),
        worlds[from].players@[key].fire_ready == ready,
    ensures
        worlds[to].players@.contains_key(key),
        worlds[to].players@[key].fire_ready == ready || has_fired_since(
            worlds,
            deeds,
            from,
            to,
            key,
            ready,
        ),
    decreases to - from,
{
    if from < to {
        let k = to - 1;
        lemma_ready_time(worlds, deeds, from, k, key, ready);
        lemma_run_step(worlds, deeds, k);
        lemma_player_over_step(worlds[k], deeds[k], worlds[to], key);
        if has_fired_since(worlds, deeds, from, k, key, ready) {
            let m = choose|m: int|
                {
                    &&& from <= m < k
                    &&& shoots(worlds[m], #[trigger] deeds[m], key)
                    &&& ready.below(deeds[m]->Steer_now)
                };
            assert(shoots(worlds[m], deeds[m], key));
        } else if shoots(worlds[k], deeds[k], key) {
            assert(ready.below(deeds[k]->Steer_now));
        }
    }
}

proof fn lemma_shot_is_later(
    worlds: Seq<World>,
    deeds: Seq<Deed>,
    from: int,
    j: int,
    key: u64,
    ready: Double,
)
    requires
        is_run(worlds, deeds),
        clock_never_goes_back(deeds),
        0 <= from <= j < deeds.len(),
        worlds[from].players@.contains_key(key),
        worlds[from].players@[key].fire_ready == ready,
        shoots(worlds[j], deeds[j], key),
    ensures
        ready.below(deeds[j]->Steer_now),
{
    lemma_ready_time(worlds, deeds, from, j, key, ready);
    if worlds[j].players@[key].fire_ready != ready {
        let k = choose|k: int|
            {
                &&& from <= k < j
                &&& shoots(worlds[k], #[trigger] deeds[k], key)
                &&& ready.below(deeds[k]->Steer_now)
            };
        assert(deeds[k] is Steer && deeds[j] is Steer);
        assert(!deeds[j]->Steer_now.below(deeds[k]->Steer_now));
    }
}

/// Two shots of a player with none in between are further apart than the time between shots,
/// whatever the clock does and whatever else happens in between: the later one comes after the
/// time at which the player was ready again after the earlier one.
pub proof fn successive_shots_are_apart(
    worlds: Seq<World>,
    deeds: Seq<Deed>,
    i: int,
    j: int,
    key: u64,
)
    requires
        is_run(worlds, deeds),
        0 <= i < j < deeds.len(),
        shoots(worlds[i], deeds[i], key),
        shoots(worlds[j], deeds[j], key),
        forall|k: int| i < k < j ==> !shoots(worlds[k], #[trigger] deeds[k], key),
    ensures
        deeds[i]->ready_again.below(deeds[j]->Steer_now),
{
    lemma_run_step(worlds, deeds, i);
    lemma_shooter_is_known(worlds[i], deeds[i], key);
    lemma_player_over_step(worlds[i], deeds[i], worlds[i + 1], key);
    lemma_ready_time(worlds, deeds, i + 1, j, key, deeds[i]->ready_again);
}

/// Any two shots of a player are further apart than the time between shots, whatever happens in
/// between: the later one comes after the time at which the player was ready again after the
/// earlier one.
pub proof fn shots_are_always_apart(
    worlds: Seq<World>,
    deeds: Seq<Deed>,
    i: int,
    j: int,
    key: u64,
)
    requires
        is_run(worlds, deeds),
        clock_never_goes_back(deeds),
        0 <= i < j < deeds.len(),
        shoots(worlds[i], deeds[i], key),
        shoots(worlds[j], deeds[j], key),
    ensures
        deeds[i]->ready_again.below(deeds[j]->Steer_now),
{
    lemma_run_step(worlds, deeds, i);
    lemma_shooter_is_known(worlds[i], deeds[i], key);
    lemma_player_over_step(worlds[i], deeds[i], worlds[i + 1], key);
    lemma_shot_is_later(worlds, deeds, i + 1, j, key, deeds[i]->ready_again);
}

proof fn lemma_first_known(worlds: Seq<World>, deeds: Seq<Deed>, n: int, key: u64) -> (first: int)
    requires
        is_run(worlds, deeds),
        0 <= n < worlds.len(),
        worlds[0].players@ == Map::<u64, Player>::empty(),
        worlds[n].players@.contains_key(key),
    ensures
        0 <= first <= n,
        worlds[first].players@.contains_key(key),
        worlds[first].players@[key].fire_ready == (Double { bits: FIRST_SHOT }),
    decreases n,
{
    assert(n > 0);
    if worlds[n - 1].players@.contains_key(key) {
        lemma_first_known(worlds, deeds, n - 1, key)
    } else {
        lemma_run_step(worlds, deeds, n - 1);
        lemma_player_over_step(worlds[n - 1], deeds[n - 1], worlds[n], key);
        n
    }
}

/// On a server that starts with nobody, no player ever fires before the time of the first shot
/// is over.
pub proof fn no_shot_comes_too_early(worlds: Seq<World>, deeds: Seq<Deed>, j: int, key: u64)
    requires
        is_run(worlds, deeds),
        clock_never_goes_back(deeds),
        worlds[0].players@ == Map::<u64, Player>::empty(),
        0 <= j < deeds.len(),
        shoots(worlds[j], deeds[j], key),
    ensures
        (Double { bits: FIRST_SHOT }).below(deeds[j]->Steer_now),
{
    lemma_run_step(worlds, deeds, j);
    lemma_shooter_is_known(worlds[j], deeds[j], key);
    let first = lemma_first_known(worlds, deeds, j, key);
    lemma_shot_is_later(worlds, deeds, first, j, key, Double { bits: FIRST_SHOT });
}

// The dead.
pub proof fn lemma_accepted_stay<T>(list: Seq<T>, keep: Seq<bool>, j: int)
    requires
        keep.len() == list.len(),
        0 <= j < list.len(),
    ensures
        keep[j] ==> kept(list, keep).contains(list[j]),
        !keep[j] ==> removed(list, keep).contains(list[j]),
    decreases list.len(),
{
    let front = list.drop_last();
    let front_keep = keep.drop_last();
    let (stay, leave) = (kept(front, front_keep), removed(front, front_keep));
    if j < front.len() {
        lemma_accepted_stay(front, front_keep, j);
        if keep[j] {
            let k = choose|k: int| 0 <= k < stay.len() && stay[k] == list[j];
            assert(kept(list, keep)[k] == list[j]);
        } else {
            let k = choose|k: int| 0 <= k < leave.len() && leave[k] == list[j];
            if !keep.last() {
                assert(removed(list, keep)[k] == list[j]);
            } else if k > 0 {
                assert(removed(list, keep)[k - 1] == list[j]);
            } else {
                assert(removed(list, keep)[leave.len() - 1] == list[j]);
            }
        }
    } else if keep[j] {
        assert(kept(list, keep)[stay.len() as int] == list[j]);
    } else {
        assert(removed(list, keep)[leave.len() as int] == list[j]);
    }
}

/// Whether a deed lines up the players whose next ship is due by a time that is not before a
/// given one.
pub open spec fn releases(deed: Deed, respawn_at: Double) -> bool {
    deed is Release && !deed->Release_now.below(respawn_at)
}

proof fn lemma_dead_over_step(before: World, deed: Deed, after: World, d: DeadPlayer)
    requires
        done(before, deed, after),
        before.dead@.contains(d),
        !releases(deed, d.respawn_at),
    ensures
        after.dead@.contains(d),
        after.players@[d.player].shared == before.players@[d.player].shared,
{
    let j = choose|j: int| 0 <= j < before.dead@.len() && before.dead@[j] == d;
    lemma_dead_are_not_live(before, d);
    assert(before.players@.contains_key(d.player));
    match deed {
        Deed::Spawn { position, to_ships, now, placed } => {
            assert(before.spawning@.contains(before.spawning@[0]));
        },
        Deed::Release { now } => {
            lemma_accepted_stay(before.dead@, waiting(before.dead@, now), j);
        },
        Deed::Collide { distances, now, respawn_at } => {
            broadcast use vstd::seq_lib::group_to_multiset_ensures;

            let ships = ships_of(before.players@, before.live@);
            let victims = distinct(victims_of(all_hits(ships, before.bullets@, distances)));
            let fallen = removed(before.live@, surviving_ships(victims, before.live@.len()));
            let all = before.dead@ + newly_dead(fallen, now, respawn_at);
            assert(all[j] == d);
            assert(all.to_multiset().count(d) > 0);
            ordering_loses_nobody(all);
        },
        Deed::Welcome { message: ClientMessage::Handshake(handshake) } => {
            joining_changes_nobody_else(
                before.players@,
                team_sizes(before.players@, before.num_teams),
                before.client_ids.0,
                before.entity_ids.0 as int,
                handshake.requested_players as nat,
            );
            assert(after.dead@[j] == d);
        },
        _ => {},
    }
}

proof fn lemma_dead_are_not_live(world: World, d: DeadPlayer)
    requires
        world.well_formed(),
        world.dead@.contains(d),
    ensures
        world.players@.contains_key(d.player),
        !world.live@.contains(d.player),
        !world.spawning@.contains(d.player),
{
    broadcast use vstd::seq_lib::group_to_multiset_ensures;

    let j = choose|j: int| 0 <= j < world.dead@.len() && world.dead@[j] == d;
    assert(dead_keys(world.dead@)[j] == d.player);
    lemma_times_of_member(dead_keys(world.dead@), j);
    assert(times(world.live@, d.player) + times(world.spawning@, d.player) + times(
        dead_keys(world.dead@),
        d.player,
    ) == 1);
    if world.live@.contains(d.player) {
        let i = choose|i: int| 0 <= i < world.live@.len() && world.live@[i] == d.player;
        lemma_times_of_member(world.live@, i);
    }
    if world.spawning@.contains(d.player) {
        let i = choose|i: int| 0 <= i < world.spawning@.len() && world.spawning@[i] == d.player;
        lemma_times_of_member(world.spawning@, i);
    }
}

/// A player who is dead stays dead, and off the field, as long as no tick has reached the time
/// of the next ship. Nothing happens to the player's ship in the meantime.
pub proof fn nobody_returns_before_time(
    worlds: Seq<World>,
    deeds: Seq<Deed>,
    i: int,
    j: int,
    d: DeadPlayer,
)
    requires
        is_run(worlds, deeds),
        0 <= i <= j < worlds.len(),
        worlds[i].dead@.contains(d),
        forall|k: int| i <= k < j ==> !releases(#[trigger] deeds[k], d.respawn_at),
    ensures
        worlds[j].dead@.contains(d),
        !worlds[j].live@.contains(d.player),
        worlds[j].players@[d.player].shared == worlds[i].players@[d.player].shared,
    decreases j - i,
{
    if i < j {
        nobody_returns_before_time(worlds, deeds, i, j - 1, d);
        lemma_run_step(worlds, deeds, j - 1);
        lemma_dead_over_step(worlds[j - 1], deeds[j - 1], worlds[j], d);
    }
    lemma_same_number_of_teams(worlds, deeds, j);
    lemma_dead_are_not_live(worlds[j], d);
}

/// Whether a ship that is in line is let try before anything else is done, as the order of the
/// steps demands.
pub open spec fn line_comes_first(worlds: Seq<World>, deeds: Seq<Deed>) -> bool {
    forall|i: int|
        0 <= i < deeds.len() - 1 && step_after(
            step_of(#[trigger] deeds[i]),
            worlds[i + 1].spawning@.len() > 0,
        ) is Spawn ==> deeds[i + 1] is Spawn
}

/// Whether a deed lets the next ship in line, that of a given player, enter the field: no ship
/// on the field touches it there; it is at rest, with no control held down, and otherwise as it
/// was; and it is announced.
pub open spec fn enters(before: World, deed: Deed, after: World, key: u64) -> bool {
    match deed {
        Deed::Spawn { position, to_ships, now, placed } => {
            let ship = respawned(before.players@[key], position);
            &&& placed
            &&& before.spawning@.len() > 0
            &&& before.spawning@[0] == key
            &&& !is_blocked(before.players@, before.live@, ship.shared, to_ships)
            &&& after.live@ == before.live@.push(key)
            &&& after.players@[key] == ship
            &&& after.new_objects@ == before.new_objects@.push(news_of(ship, now))
        },
        _ => false,
    }
}

/// The announcement of a ship that has just entered the field.
pub open spec fn news_of(ship: Player, now: Double) -> NewObject {
    announcement(ship.shared, ship.spec_drawable(), now)
}

proof fn lemma_line_over_step(before: World, deed: Deed, after: World, key: u64)
    requires
        done(before, deed, after),
        before.spawning@.contains(key),
    ensures
        after.spawning@.contains(key) || enters(before, deed, after, key),
{
    let i = choose|i: int| 0 <= i < before.spawning@.len() && before.spawning@[i] == key;
    match deed {
        Deed::Release { now } => {
            assert(after.spawning@[i] == key);
        },
        Deed::Spawn { position, to_ships, now, placed } => {
            if placed && i > 0 {
                assert(after.spawning@[i - 1] == key);
            }
        },
        _ => {},
    }
}

proof fn lemma_line_until_entry(
    worlds: Seq<World>,
    deeds: Seq<Deed>,
    from: int,
    to: int,
    key: u64,
)
    requires
        is_run(worlds, deeds),
        0 <= from <= to < worlds.len(),
        worlds[from].spawning@.contains(key),
    ensures
        worlds[to].spawning@.contains(key) || exists|t: int|
            from <= t < to && enters(worlds[t], #[trigger] deeds[t], worlds[t + 1], key),
    decreases to - from,
{
    if from < to {
        lemma_line_until_entry(worlds, deeds, from, to - 1, key);
        lemma_run_step(worlds, deeds, to - 1);
        if worlds[to - 1].spawning@.contains(key) {
            lemma_line_over_step(worlds[to - 1], deeds[to - 1], worlds[to], key);
            if !worlds[to].spawning@.contains(key) {
                let last = to - 1;
                assert(enters(worlds[last], deeds[last], worlds[last + 1], key));
            }
        } else {
            let t = choose|t: int|
                from <= t < to - 1 && enters(worlds[t], #[trigger] deeds[t], worlds[t + 1], key);
            assert(enters(worlds[t], deeds[t], worlds[t + 1], key));
        }
    }
}

proof fn lemma_the_due_are_in_line(before: World, deed: Deed, after: World, d: DeadPlayer)
    requires
        done(before, deed, after),
        before.dead@.contains(d),
        releases(deed, d.respawn_at),
    ensures
        after.spawning@.contains(d.player),
{
    let keep = waiting(before.dead@, deed->Release_now);
    let place = choose|j: int| 0 <= j < before.dead@.len() && before.dead@[j] == d;
    lemma_accepted_stay(before.dead@, keep, place);
    let due = removed(before.dead@, keep);
    let n = choose|n: int| 0 <= n < due.len() && due[n] == d;
    assert(dead_keys(due)[n] == d.player);
    assert(after.spawning@[before.spawning@.len() + n] == d.player);
}

/// From the first tick on that has reached the time of the next ship, a dead player is in line
/// until the ship enters the field, whatever the server does: at any later moment `m`, either
/// the player is in line, or the ship has entered.
pub proof fn the_due_are_in_line_until_they_enter(
    worlds: Seq<World>,
    deeds: Seq<Deed>,
    k: int,
    m: int,
    d: DeadPlayer,
)
    requires
        is_run(worlds, deeds),
        0 <= k < m < worlds.len(),
        worlds[k].dead@.contains(d),
        releases(deeds[k], d.respawn_at),
    ensures
        worlds[m].spawning@.contains(d.player) || exists|t: int|
            k < t < m && enters(worlds[t], #[trigger] deeds[t], worlds[t + 1], d.player),
{
    lemma_run_step(worlds, deeds, k);
    lemma_the_due_are_in_line(worlds[k], deeds[k], worlds[k + 1], d);
    lemma_line_until_entry(worlds, deeds, k + 1, m, d.player);
}

/// Whether a player's ship has entered the field by a deed `t` out of those from `from` up to
/// `to`, had not changed before since `from`, and has not changed since; and whether it has been
/// announced with the time of its entry.
pub open spec fn entered_at(
    worlds: Seq<World>,
    deeds: Seq<Deed>,
    from: int,
    to: int,
    key: u64,
    t: int,
) -> bool {
    &&& from <= t < to
    &&& enters(worlds[t], deeds[t], worlds[t + 1], key)
    &&& worlds[t].players@[key] == worlds[from].players@[key]
    &&& worlds[to].players@[key] == worlds[t + 1].players@[key]
    &&& worlds[to].new_objects@.contains(
        news_of(worlds[to].players@[key], deeds[t]->Spawn_now),
    )
}

proof fn lemma_line_moves_on(
    worlds: Seq<World>,
    deeds: Seq<Deed>,
    from: int,
    to: int,
    key: u64,
)
    requires
        is_run(worlds, deeds),
        0 <= from <= to < worlds.len(),
        forall|k: int| from <= k < to ==> #[trigger] deeds[k] is Spawn,
        worlds[from].spawning@.contains(key),
    ensures
        ({
            ||| worlds[to].spawning@.contains(key) && worlds[to].players@[key]
                == worlds[from].players@[key]
            ||| worlds[to].live@.contains(key) && exists|t: int| #[trigger]
                entered_at(worlds, deeds, from, to, key, t)
        }),
    decreases to - from,
{
    if from < to {
        let k = to - 1;
        lemma_line_moves_on(worlds, deeds, from, k, key);
        lemma_run_step(worlds, deeds, k);
        let (before, deed, after) = (worlds[k], deeds[k], worlds[k + 1]);
        let ship = worlds[from].players@[key];
        assert(deed is Spawn);
        if before.spawning@.contains(key) && before.players@[key] == ship {
            lemma_line_over_step(before, deed, after, key);
            if enters(before, deed, after, key) {
                assert(after.live@[before.live@.len() as int] == key);
                assert(after.new_objects@[before.new_objects@.len() as int] == news_of(
                    after.players@[key],
                    deed->Spawn_now,
                ));
                assert(entered_at(worlds, deeds, from, to, key, k));
            }
        } else {
            let t = choose|t: int| #[trigger] entered_at(worlds, deeds, from, k, key, t);
            let told = news_of(before.players@[key], deeds[t]->Spawn_now);
            let i = choose|i: int| 0 <= i < before.live@.len() && before.live@[i] == key;
            let n = choose|n: int|
                0 <= n < before.new_objects@.len() && before.new_objects@[n] == told;
            lemma_line_is_not_live(before, key);
            assert(after.live@[i] == key);
            assert(after.new_objects@[n] == told);
            assert(entered_at(worlds, deeds, from, to, key, t));
        }
    }
}

proof fn lemma_line_is_not_live(world: World, key: u64)
    requires
        world.well_formed(),
        world.live@.contains(key),
        world.spawning@.len() > 0,
    ensures
        world.spawning@[0] != key,
{
    let i = choose|i: int| 0 <= i < world.live@.len() && world.live@[i] == key;
    lemma_times_of_member(world.live@, i);
    lemma_times_of_member(world.spawning@, 0);
    assert(times(world.live@, key) + times(world.spawning@, key) + times(
        dead_keys(world.dead@),
        key,
    ) <= 1);
}

/// Whether the ships that enter the field after a tick has begun at `k`, and before `m`, enter at
/// the time of that tick.
pub open spec fn ships_enter_on_time(deeds: Seq<Deed>, k: int, m: int) -> bool {
    forall|j: int|
        k < j < m && #[trigger] deeds[j] is Spawn ==> deeds[j]->Spawn_now == deeds[k]->Release_now
}

/// A dead player is back on the field after the first tick that has reached the time of the next
/// ship, as soon as its ships have entered, and not before: `i` is a moment at which the player
/// is dead, `k` the first tick afterwards that has reached that time, and `m` the first thing
/// that the server does in it after the ships have entered.
///
/// The ship has entered where no ship on the field touched it. It is the one that the player
/// died with, turned as it was, but at rest and with no control held down; and it has been
/// announced, with the time of the tick.
pub proof fn the_dead_return_in_time(
    worlds: Seq<World>,
    deeds: Seq<Deed>,
    i: int,
    k: int,
    m: int,
    d: DeadPlayer,
)
    requires
        is_run(worlds, deeds),
        line_comes_first(worlds, deeds),
        0 <= i <= k < m < deeds.len(),
        worlds[i].dead@.contains(d),
        forall|j: int| i <= j < k ==> !releases(#[trigger] deeds[j], d.respawn_at),
        releases(deeds[k], d.respawn_at),
        forall|j: int| k < j < m ==> #[trigger] deeds[j] is Spawn,
        !(deeds[m] is Spawn),
    ensures
        forall|j: int| i <= j <= k ==> !(#[trigger] worlds[j]).live@.contains(d.player),
        worlds[m].live@.contains(d.player),
        exists|t: int| #[trigger] entered_at(worlds, deeds, k + 1, m, d.player, t),
        ({
            let ship = worlds[m].players@[d.player];
            let late = worlds[i].players@[d.player];
            &&& ship.shared == (GameEntity {
                position: ship.shared.position,
                velocity: Vec2::origin(),
                ..late.shared
            })
            &&& ship.acceleration == Vec2::origin()
            &&& ship.controller == ControllerState::idle()
            &&& ships_enter_on_time(deeds, k, m) ==> worlds[m].new_objects@.contains(
                news_of(ship, deeds[k]->Release_now),
            )
        }),
{
    let key = d.player;
    assert forall|j: int| i <= j <= k implies !(#[trigger] worlds[j]).live@.contains(key) by {
        nobody_returns_before_time(worlds, deeds, i, j, d);
    }
    nobody_returns_before_time(worlds, deeds, i, k, d);
    lemma_run_step(worlds, deeds, k);
    lemma_the_due_are_in_line(worlds[k], deeds[k], worlds[k + 1], d);
    lemma_line_moves_on(worlds, deeds, k + 1, m, key);
    assert(worlds[m].spawning@.len() == 0) by {
        let last = deeds[m - 1];
        assert(last is Release || last is Spawn);
        if worlds[m].spawning@.len() > 0 {
            assert(step_after(step_of(deeds[m - 1]), true) is Spawn);
        }
    }
    let t = choose|t: int| #[trigger] entered_at(worlds, deeds, k + 1, m, key, t);
    assert(entered_at(worlds, deeds, k + 1, m, key, t));
    assert(deeds[t] is Spawn);
}

} // verus!
