//! The state of the server.
use crate::double::Double;
use crate::entity::{Bullet, Drawable, GameEntity, Player, Team};
use crate::graveyard::{dead_keys, DeadPlayer};
use crate::ids::IdGen;
use crate::lists::{DeletedIds, NewObjects, Scores};
use crate::packets::NewObject;
use crate::retain::{kept, kept_places, retaining_keeps_order};
use crate::teams::{same_teams_same_sizes, team_size, teams_in_play};
use std::collections::HashMap;
use vstd::prelude::*;

verus! {

broadcast use vstd::std_specs::hash::group_hash_axioms;

/// The number of players that one client can have.
pub const PLAYERS_PER_CLIENT: u64 = 0x1_0000_0000;

/// The key of a player: the client's number in the upper half, the player's number at the
/// client in the lower half.
#[verifier::allow_in_spec]
pub fn player_key(client: u32, local: u32) -> (key: u64)
    returns
        (client * PLAYERS_PER_CLIENT + local) as u64,
{
    client as u64 * PLAYERS_PER_CLIENT + local as u64
}

/// Different players have different keys.
pub proof fn player_keys_differ(client: u32, local: u32, other_client: u32, other_local: u32)
    requires
        player_key(client, local) == player_key(other_client, other_local),
    ensures
        client == other_client,
        local == other_local,
{
}

/// The state of the server.
pub struct World {
    pub num_teams: usize,
    /// All players, by key.
    pub players: HashMap<u64, Player>,
    /// The players with a ship on the field.
    pub live: Vec<u64>,
    /// The players whose ship is about to enter the field.
    pub spawning: Vec<u64>,
    /// The players who wait for a ship.
    pub dead: Vec<DeadPlayer>,
    pub bullets: Vec<Bullet>,
    pub scores: Scores,
    pub entity_ids: IdGen,
    pub client_ids: IdGen,
    /// What has appeared since the clients were last told.
    pub new_objects: NewObjects,
    /// What is gone since the clients were last told.
    pub deleted: DeletedIds,
}

/// How often a key is in a list.
pub open spec fn times(keys: Seq<u64>, key: u64) -> nat {
    keys.to_multiset().count(key)
}

/// Whether each player is in exactly one of the three lists, and exactly once.
pub open spec fn roster_ok(
    players: Map<u64, Player>,
    live: Seq<u64>,
    spawning: Seq<u64>,
    dead: Seq<DeadPlayer>,
) -> bool {
    forall|key: u64| #[trigger]
        times(live, key) + times(spawning, key) + times(dead_keys(dead), key) == if players.contains_key(
            key,
        ) {
            1nat
        } else {
            0nat
        }
}

/// Whether all ships and bullets have different ids, all of them handed out already.
pub open spec fn ids_ok(players: Map<u64, Player>, bullets: Seq<Bullet>, next: int) -> bool {
    &&& players.dom().len() <= next
    &&& forall|key: u64| #[trigger]
        players.contains_key(key) ==> players[key].shared.entity_id < next
    &&& forall|a: u64, b: u64| #[trigger]
        players.contains_key(a) && #[trigger] players.contains_key(b) && a != b
            ==> players[a].shared.entity_id != players[b].shared.entity_id
    &&& forall|i: int| 0 <= i < bullets.len() ==> (#[trigger] bullets[i]).shared.entity_id < next
    &&& forall|i: int, j: int|
        0 <= i < j < bullets.len() ==> (#[trigger] bullets[i]).shared.entity_id != (
        #[trigger] bullets[j]).shared.entity_id
    &&& forall|key: u64, i: int| #[trigger]
        players.contains_key(key) && 0 <= i < bullets.len() ==> players[key].shared.entity_id != (
        #[trigger] bullets[i]).shared.entity_id
}

/// Whether a team number is one that players are put in.
pub open spec fn is_team(team: Team, num_teams: usize) -> bool {
    team.0 < teams_in_play(num_teams) || team.0 == 0
}

/// Whether all players and bullets are of teams in play, and no team has more than one player
/// more than another.
pub open spec fn teams_ok(
    players: Map<u64, Player>,
    bullets: Seq<Bullet>,
    num_teams: usize,
) -> bool {
    &&& forall|key: u64| #[trigger]
        players.contains_key(key) ==> is_team(players[key].shared.owning_team, num_teams)
    &&& forall|i: int|
        0 <= i < bullets.len() ==> is_team((#[trigger] bullets[i]).shared.owning_team, num_teams)
    &&& forall|t: int, u: int|
        0 <= t < teams_in_play(num_teams) && 0 <= u < teams_in_play(num_teams) ==> #[trigger]
            team_size(players, t) <= #[trigger] team_size(players, u) + 1
}

/// Whether all players belong to clients that have a number already.
pub open spec fn clients_ok(players: Map<u64, Player>, next_client: int) -> bool {
    forall|key: u64| #[trigger]
        players.contains_key(key) ==> key < next_client * PLAYERS_PER_CLIENT
}

impl World {
    /// What holds of the server between any two steps.
    pub open spec fn well_formed(&self) -> bool {
        &&& self.scores@.len() == self.num_teams
        &&& roster_ok(self.players@, self.live@, self.spawning@, self.dead@)
        &&& ids_ok(self.players@, self.bullets@, self.entity_ids.0 as int)
        &&& teams_ok(self.players@, self.bullets@, self.num_teams)
        &&& clients_ok(self.players@, self.client_ids.0 as int)
    }

    /// The server at the start: nobody plays, and every team has no points.
    pub fn new(num_teams: usize) -> (world: World)
        ensures
            world.well_formed(),
            world.num_teams == num_teams,
            world.players@ == Map::<u64, Player>::empty(),
            world.live@.len() == 0,
            world.spawning@.len() == 0,
            world.dead@.len() == 0,
            world.bullets@.len() == 0,
            world.scores@ == Seq::new(num_teams as nat, |t: int| 0u32),
            world.entity_ids.0 == 0,
            world.client_ids.0 == 0,
            world.new_objects@.len() == 0,
            world.deleted@.len() == 0,
    {
        let scores = Scores::from_vec(vec![0u32; num_teams]);
        assert(scores@ =~= Seq::new(num_teams as nat, |t: int| 0u32));
        let world = World {
            num_teams,
            players: HashMap::new(),
            live: Vec::new(),
            spawning: Vec::new(),
            dead: Vec::new(),
            bullets: Vec::new(),
            scores,
            entity_ids: IdGen(0),
            client_ids: IdGen(0),
            new_objects: NewObjects::new(),
            deleted: DeletedIds::new(),
        };
        proof {
            broadcast use vstd::seq_lib::group_to_multiset_ensures;

            assert(dead_keys(world.dead@) =~= Seq::empty());
            assert forall|t: int| #[trigger] team_size(world.players@, t) == 0 by {
                assert(crate::teams::team_members(world.players@, t) =~= Set::empty());
            }
        }
        world
    }
}

/// The ships of the live players, in order.
pub open spec fn ships_of(players: Map<u64, Player>, live: Seq<u64>) -> Seq<Player> {
    live.map_values(|key: u64| players[key])
}

pub proof fn lemma_times_of_member(keys: Seq<u64>, i: int)
    requires
        0 <= i < keys.len(),
    ensures
        times(keys, keys[i]) > 0,
{
    broadcast use vstd::seq_lib::group_to_multiset_ensures;

    assert(keys.contains(keys[i]));
}

/// Every live player is known, and no one is live twice.
pub proof fn live_players_are_known(
    players: Map<u64, Player>,
    live: Seq<u64>,
    spawning: Seq<u64>,
    dead: Seq<DeadPlayer>,
)
    requires
        roster_ok(players, live, spawning, dead),
    ensures
        forall|i: int| 0 <= i < live.len() ==> players.contains_key(#[trigger] live[i]),
        live.no_duplicates(),
{
    broadcast use vstd::seq_lib::group_to_multiset_ensures;

    assert forall|i: int| 0 <= i < live.len() implies players.contains_key(#[trigger] live[i]) by {
        lemma_times_of_member(live, i);
        assert(times(live, live[i]) > 0);
    }
    assert forall|key: u64| live.to_multiset().contains(key) implies live.to_multiset().count(key)
        == 1 by {
        assert(times(live, key) > 0);
    }
    live.lemma_multiset_has_no_duplicates_conv();
}

pub proof fn lemma_times_of_concat(a: Seq<u64>, b: Seq<u64>, key: u64)
    ensures
        times(a + b, key) == times(a, key) + times(b, key),
{
    vstd::seq_lib::lemma_multiset_commutative(a, b);
}

impl World {
    /// The ships on the field.
    pub fn ships(&self) -> (ships: Vec<Player>)
        requires
            self.well_formed(),
        ensures
            ships@ == ships_of(self.players@, self.live@),
    {
        proof {
            live_players_are_known(self.players@, self.live@, self.spawning@, self.dead@);
        }
        let mut ships: Vec<Player> = Vec::new();
        for i in 0..self.live.len()
            invariant
                self.well_formed(),
                forall|j: int|
                    0 <= j < self.live@.len() ==> self.players@.contains_key(
                        #[trigger] self.live@[j],
                    ),
                ships@ == ships_of(self.players@, self.live@.take(i as int)),
        {
            assert(self.players@.contains_key(self.live@[i as int]));
            if let Some(player) = self.players.get(&self.live[i]) {
                ships.push(*player);
            }
            assert(ships@ =~= ships_of(self.players@, self.live@.take(i + 1)));
        }
        assert(self.live@.take(self.live@.len() as int) =~= self.live@);
        ships
    }
}

/// The announcement of an object that has just appeared.
pub open spec fn announcement(entity: GameEntity, drawable: Drawable, now: Double) -> NewObject {
    NewObject { id: entity.entity_id, time: now, drawable, initial_info: entity.spec_info() }
}

/// Whether two player lists have the same players, each with the same ship and team.
pub open spec fn same_identities(before: Map<u64, Player>, after: Map<u64, Player>) -> bool {
    &&& before.dom() == after.dom()
    &&& forall|key: u64| #[trigger]
        before.contains_key(key) ==> {
            &&& after[key].shared.entity_id == before[key].shared.entity_id
            &&& after[key].shared.owning_team == before[key].shared.owning_team
        }
}

pub proof fn lemma_same_identities(
    before: Map<u64, Player>,
    after: Map<u64, Player>,
    bullets: Seq<Bullet>,
    next: int,
    num_teams: usize,
    next_client: int,
)
    requires
        same_identities(before, after),
        ids_ok(before, bullets, next),
        teams_ok(before, bullets, num_teams),
        clients_ok(before, next_client),
    ensures
        ids_ok(after, bullets, next),
        teams_ok(after, bullets, num_teams),
        clients_ok(after, next_client),
{
    assert forall|key: u64| #[trigger] after.contains_key(key) implies before.contains_key(key) by {
        assert(after.dom().contains(key));
    }
    assert forall|t: int| #[trigger] team_size(after, t) == team_size(before, t) by {
        same_teams_same_sizes(before, after, t);
    }
}

pub proof fn lemma_fewer_bullets(
    players: Map<u64, Player>,
    bullets: Seq<Bullet>,
    keep: Seq<bool>,
    next: int,
    num_teams: usize,
)
    requires
        keep.len() == bullets.len(),
        ids_ok(players, bullets, next),
        teams_ok(players, bullets, num_teams),
    ensures
        ids_ok(players, kept(bullets, keep), next),
        teams_ok(players, kept(bullets, keep), num_teams),
{
    let after = kept(bullets, keep);
    let places = kept_places(keep);
    retaining_keeps_order(bullets, keep);
    assert forall|i: int| 0 <= i < after.len() implies (#[trigger] after[i]).shared.entity_id < next
        && is_team(after[i].shared.owning_team, num_teams) by {
        assert(0 <= places[i] < bullets.len());
        assert(after[i] == bullets[places[i]]);
    }
    assert forall|i: int, j: int| 0 <= i < j < after.len() implies (
    #[trigger] after[i]).shared.entity_id != (#[trigger] after[j]).shared.entity_id by {
        assert(0 <= places[i] < bullets.len() && 0 <= places[j] < bullets.len());
        assert(places[i] < places[j]);
        assert(after[i] == bullets[places[i]] && after[j] == bullets[places[j]]);
    }
    assert forall|key: u64, i: int| #[trigger]
        players.contains_key(key) && 0 <= i < after.len() implies players[key].shared.entity_id != (
    #[trigger] after[i]).shared.entity_id by {
        assert(0 <= places[i] < bullets.len());
        assert(after[i] == bullets[places[i]]);
    }
}

} // verus!
