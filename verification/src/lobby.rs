//! Clients that join, and what they say.
use crate::controller::ControllerState;
use crate::double::Double;
use crate::entity::{player, spec_player, Bullet, Player, Team};
use crate::graveyard::NEVER;
use crate::graveyard::{dead_keys, DeadPlayer};
use crate::packets::{ClientMessage, ServerHandshake};
use crate::report::tells_everything;
use crate::teams::{
    count_teams, joined_team_is_smallest, joining_keeps_balance, new_player_grows_its_team,
    sizes_after, sizes_after_one, smallest_team, team_members, team_size, team_to_join,
    teams_in_play,
};
use crate::world::PLAYERS_PER_CLIENT;
use crate::world::{
    clients_ok, ids_ok, is_team, lemma_same_identities, lemma_times_of_concat, player_key,
    roster_ok, ships_of, teams_ok, times, World,
};
use vstd::prelude::*;

verus! {

broadcast use vstd::std_specs::hash::group_hash_axioms;

/// The sizes of the teams in play.
pub open spec fn team_sizes(players: Map<u64, Player>, num_teams: usize) -> Seq<u32> {
    Seq::new(teams_in_play(num_teams), |t: int| team_size(players, t) as u32)
}

/// The player list after the first `n` players of a client have joined, each the smallest team
/// at its turn, and each with the next entity id.
pub open spec fn players_joined(
    players: Map<u64, Player>,
    sizes: Seq<u32>,
    client: u32,
    first_id: int,
    n: nat,
) -> Map<u64, Player>
    decreases n,
{
    if n == 0 {
        players
    } else {
        let i = (n - 1) as nat;
        players_joined(players, sizes, client, first_id, i).insert(
            player_key(client, i as u32),
            spec_player(Team(team_to_join(sizes_after(sizes, i)) as u8), (first_id + i) as u32),
        )
    }
}

/// The first `n` players of a client, waiting for their first ship, which is due at once.
pub open spec fn waiting_to_start(client: u32, n: nat) -> Seq<DeadPlayer> {
    Seq::new(
        n,
        |i: int|
            DeadPlayer {
                since: Double { bits: NEVER },
                respawn_at: Double { bits: NEVER },
                player: player_key(client, i as u32),
            },
    )
}

/// The player list after a client has reported the controls of one of its players. A player
/// that does not exist is ignored.
pub open spec fn players_heard(
    players: Map<u64, Player>,
    key: u64,
    update: ControllerState,
) -> Map<u64, Player> {
    if players.contains_key(key) {
        players.insert(key, Player { controller: update, ..players[key] })
    } else {
        players
    }
}

/// The server after a client with so many players has been taken in. It has the next number.
pub open spec fn taken_in(before: World, n: nat, after: World) -> bool {
    let client = before.client_ids.0;
    &&& after.client_ids.0 == client + 1
    &&& after.entity_ids.0 == before.entity_ids.0 + n
    &&& after.players@ == players_joined(
        before.players@,
        team_sizes(before.players@, before.num_teams),
        client,
        before.entity_ids.0 as int,
        n,
    )
    &&& after.dead@ == before.dead@ + waiting_to_start(client, n)
    &&& after == (World {
        client_ids: after.client_ids,
        entity_ids: after.entity_ids,
        players: after.players,
        dead: after.dead,
        ..before
    })
}

/// The server after the first message of a client: one that asks to play is taken in, anything
/// else changes nothing.
pub open spec fn welcomed(before: World, message: ClientMessage, after: World) -> bool {
    match message {
        ClientMessage::Handshake(handshake) => taken_in(
            before,
            handshake.requested_players as nat,
            after,
        ),
        ClientMessage::ControllerUpdate(_, _) => after == before,
    }
}

/// Whether an answer is the one to the first message of a client: its number and what is on the
/// field for one that asks to play, and none for anything else.
pub open spec fn answered(
    before: World,
    message: ClientMessage,
    answer: Option<(u32, ServerHandshake)>,
) -> bool {
    match message {
        ClientMessage::Handshake(_) => {
            &&& answer matches Some((client, told))
            &&& client == before.client_ids.0
            &&& tells_everything(before, told)
        },
        ClientMessage::ControllerUpdate(_, _) => answer is None,
    }
}

/// The server after a message of a client: a report of controls sets them, anything else changes
/// nothing.
pub open spec fn heard(before: World, client: u32, message: ClientMessage, after: World) -> bool {
    &&& after.players@ == match message {
        ClientMessage::ControllerUpdate(local, update) => players_heard(
            before.players@,
            player_key(client, local),
            update,
        ),
        ClientMessage::Handshake(_) => before.players@,
    }
    &&& after == (World { players: after.players, ..before })
}

proof fn lemma_team_sizes_fit(players: Map<u64, Player>, bullets: Seq<Bullet>, next: int, t: int)
    requires
        ids_ok(players, bullets, next),
        players.dom().finite(),
    ensures
        team_size(players, t) <= next,
{
    vstd::set_lib::lemma_len_subset(team_members(players, t), players.dom());
}

proof fn lemma_one_joins(
    players: Map<u64, Player>,
    live: Seq<u64>,
    spawning: Seq<u64>,
    dead: Seq<DeadPlayer>,
    bullets: Seq<Bullet>,
    next: int,
    num_teams: usize,
    sizes: Seq<u32>,
    newcomer: DeadPlayer,
    ship: Player,
)
    requires
        players.dom().finite(),
        roster_ok(players, live, spawning, dead),
        ids_ok(players, bullets, next),
        teams_ok(players, bullets, num_teams),
        0 <= next < u32::MAX,
        sizes.len() == teams_in_play(num_teams),
        forall|t: int| 0 <= t < sizes.len() ==> #[trigger] sizes[t] == team_size(players, t),
        !players.contains_key(newcomer.player),
        ship == spec_player(Team(team_to_join(sizes) as u8), next as u32),
    ensures
        ({
            let after = players.insert(newcomer.player, ship);
            &&& roster_ok(after, live, spawning, dead.push(newcomer))
            &&& ids_ok(after, bullets, next + 1)
            &&& teams_ok(after, bullets, num_teams)
            &&& forall|t: int|
                0 <= t < sizes.len() ==> #[trigger] sizes_after_one(sizes)[t] == team_size(after, t)
        }),
{
    let key = newcomer.player;
    let after = players.insert(key, ship);
    let grown = sizes_after_one(sizes);
    assert(sizes.len() <= 256);
    assert forall|k: u64| #[trigger]
        times(live, k) + times(spawning, k) + times(dead_keys(dead.push(newcomer)), k)
            == if after.contains_key(k) {
            1nat
        } else {
            0nat
        } by {
        broadcast use vstd::seq_lib::group_to_multiset_ensures;

        assert(dead_keys(dead.push(newcomer)) =~= dead_keys(dead) + seq![key]);
        lemma_times_of_concat(dead_keys(dead), seq![key], k);
        assert(seq![key] =~= Seq::empty().push(key));
        assert(times(seq![key], k) == if k == key { 1nat } else { 0nat });
        assert(times(live, k) + times(spawning, k) + times(dead_keys(dead), k)
            == if players.contains_key(k) {
            1nat
        } else {
            0nat
        });
    }
    if sizes.len() > 0 {
        joined_team_is_smallest(sizes);
    }
    assert(is_team(ship.shared.owning_team, num_teams));
    assert(ids_ok(after, bullets, next + 1)) by {
        assert(after.dom() =~= players.dom().insert(key));
    }
    assert forall|t: int| 0 <= t < sizes.len() implies #[trigger] grown[t] == team_size(after, t) by {
        new_player_grows_its_team(players, key, ship, t);
        lemma_team_sizes_fit(players, bullets, next, t);
        assert(sizes[t] == team_size(players, t));
    }
    assert forall|t: int, u: int| 0 <= t < sizes.len() && 0 <= u < sizes.len() implies #[trigger]
        sizes[t] <= #[trigger] sizes[u] + 1 by {
        assert(team_size(players, t) <= team_size(players, u) + 1);
    }
    assert forall|t: int| 0 <= t < sizes.len() implies #[trigger] sizes[t] < u32::MAX by {
        lemma_team_sizes_fit(players, bullets, next, t);
    }
    joining_keeps_balance(sizes);
    assert forall|t: int, u: int|
        0 <= t < teams_in_play(num_teams) && 0 <= u < teams_in_play(num_teams) implies #[trigger]
        team_size(after, t) <= #[trigger] team_size(after, u) + 1 by {
        assert(grown[t] <= grown[u] + 1);
    }
}

impl World {
    /// Takes a client in: gives it a number, makes the players that it asks for, and puts each
    /// of them in the team with the fewest players. They wait for their first ship, which is
    /// due at once.
    pub fn join(&mut self, requested_players: u32) -> (client: u32)
        requires
            old(self).well_formed(),
            old(self).client_ids.0 < u32::MAX,
            old(self).entity_ids.0 + requested_players <= u32::MAX,
        ensures
            final(self).well_formed(),
            client == old(self).client_ids.0,
            taken_in(*old(self), requested_players as nat, *final(self)),
    {
        let ghost start = *self;
        let ghost first_id = start.entity_ids.0 as int;
        let ghost start_sizes = team_sizes(start.players@, start.num_teams);
        let client: u32 = self.client_ids.next();
        let mut sizes = count_teams(&self.players, self.num_teams);
        proof {
            assert forall|t: int| 0 <= t < sizes@.len() implies #[trigger] sizes@[t]
                == start_sizes[t] by {}
            assert(sizes@ =~= start_sizes);
            assert(self.dead@ =~= start.dead@ + waiting_to_start(client, 0));
        }
        for i in 0..requested_players
            invariant
                start == *old(self),
                start.well_formed(),
                client == start.client_ids.0,
                first_id == start.entity_ids.0,
                first_id + requested_players <= u32::MAX,
                start_sizes == team_sizes(start.players@, start.num_teams),
                *self == (World {
                    client_ids: self.client_ids,
                    entity_ids: self.entity_ids,
                    players: self.players,
                    dead: self.dead,
                    ..start
                }),
                self.client_ids.0 == client + 1,
                self.entity_ids.0 == first_id + i,
                sizes@ == sizes_after(start_sizes, i as nat),
                sizes@.len() == teams_in_play(self.num_teams),
                forall|t: int|
                    0 <= t < sizes@.len() ==> #[trigger] sizes@[t] == team_size(self.players@, t),
                self.players@ == players_joined(
                    start.players@,
                    start_sizes,
                    client,
                    first_id,
                    i as nat,
                ),
                self.dead@ == start.dead@ + waiting_to_start(client, i as nat),
                roster_ok(self.players@, self.live@, self.spawning@, self.dead@),
                ids_ok(self.players@, self.bullets@, self.entity_ids.0 as int),
                teams_ok(self.players@, self.bullets@, self.num_teams),
                forall|key: u64| #[trigger]
                    self.players@.contains_key(key) ==> key < client * PLAYERS_PER_CLIENT + i,
        {
            let ghost previous = *self;
            let ghost sizes_before = sizes@;
            let team = smallest_team(&sizes);
            let place: usize = team.0 as usize;
            proof {
                if sizes@.len() > 0 {
                    joined_team_is_smallest(sizes@);
                    lemma_team_sizes_fit(
                        self.players@,
                        self.bullets@,
                        self.entity_ids.0 as int,
                        place as int,
                    );
                    assert(sizes@[place as int] == team_size(self.players@, place as int));
                }
            }
            if place < sizes.len() {
                let size: u32 = sizes[place];
                sizes.set(place, size + 1);
            }
            assert(sizes@ =~= sizes_after_one(sizes_before));
            let key: u64 = player_key(client, i);
            let id: u32 = self.entity_ids.next();
            let ship = player(team, id);
            self.players.insert(key, ship);
            let newcomer = DeadPlayer {
                since: Double { bits: NEVER },
                respawn_at: Double { bits: NEVER },
                player: key,
            };
            self.dead.push(newcomer);
            proof {
                assert(self.dead@ =~= start.dead@ + waiting_to_start(client, (i + 1) as nat));
                lemma_one_joins(
                    previous.players@,
                    previous.live@,
                    previous.spawning@,
                    previous.dead@,
                    previous.bullets@,
                    previous.entity_ids.0 as int,
                    previous.num_teams,
                    sizes_before,
                    newcomer,
                    ship,
                );
            }
        }
        client
    }

    /// Answers the first message of a client. One that asks to play is told what is on the field
    /// and is taken in; anything else gets no answer and changes nothing.
    pub fn welcome(&mut self, message: ClientMessage) -> (answer: Option<(u32, ServerHandshake)>)
        requires
            old(self).well_formed(),
            message matches ClientMessage::Handshake(handshake) ==> {
                &&& old(self).client_ids.0 < u32::MAX
                &&& old(self).entity_ids.0 + handshake.requested_players <= u32::MAX
            },
        ensures
            final(self).well_formed(),
            answered(*old(self), message, answer),
            welcomed(*old(self), message, *final(self)),
    {
        match message {
            ClientMessage::Handshake(handshake) => {
                let told = self.handshake();
                let client: u32 = self.join(handshake.requested_players);
                Some((client, told))
            },
            ClientMessage::ControllerUpdate(_, _) => None,
        }
    }

    /// Takes in what a client says. Only reports of controls are taken in; one about a player
    /// that does not exist changes nothing. The result says whether to listen on: a client that
    /// says anything else is not listened to any further in this tick.
    pub fn hear(&mut self, client: u32, message: ClientMessage) -> (listen_on: bool)
        requires
            old(self).well_formed(),
        ensures
            final(self).well_formed(),
            listen_on == (message is ControllerUpdate),
            heard(*old(self), client, message, *final(self)),
    {
        match message {
            ClientMessage::ControllerUpdate(local, update) => {
                let key: u64 = player_key(client, local);
                let ghost start = *self;
                if self.players.contains_key(&key) {
                    let mut ship: Player = *self.players.get(&key).unwrap();
                    ship.controller = update;
                    self.players.insert(key, ship);
                    proof {
                        assert(self.players@.dom() =~= start.players@.dom());
                        lemma_same_identities(
                            start.players@,
                            self.players@,
                            self.bullets@,
                            self.entity_ids.0 as int,
                            self.num_teams,
                            self.client_ids.0 as int,
                        );
                        assert forall|k: u64| #[trigger]
                            times(self.live@, k) + times(self.spawning@, k) + times(
                                dead_keys(self.dead@),
                                k,
                            ) == if self.players@.contains_key(k) {
                                1nat
                            } else {
                                0nat
                            } by {
                            assert(self.players@.contains_key(k) == start.players@.contains_key(k));
                            assert(times(start.live@, k) == times(self.live@, k));
                        }
                    }
                }
                true
            },
            ClientMessage::Handshake(_) => false,
        }
    }
}

/// Joining changes no player who is there already, and makes each new player as its turn
/// demands.
pub proof fn joining_changes_nobody_else(
    players: Map<u64, Player>,
    sizes: Seq<u32>,
    client: u32,
    first_id: int,
    n: nat,
)
    requires
        clients_ok(players, client as int),
        n <= u32::MAX,
    ensures
        forall|key: u64| #[trigger]
            players.contains_key(key) ==> {
                &&& players_joined(players, sizes, client, first_id, n).contains_key(key)
                &&& players_joined(players, sizes, client, first_id, n)[key] == players[key]
            },
        forall|i: int|
            0 <= i < n ==> {
                &&& players_joined(players, sizes, client, first_id, n).contains_key(
                    #[trigger] player_key(client, i as u32),
                )
                &&& players_joined(players, sizes, client, first_id, n)[player_key(
                    client,
                    i as u32,
                )] == spec_player(
                    Team(team_to_join(sizes_after(sizes, i as nat)) as u8),
                    (first_id + i) as u32,
                )
            },
    decreases n,
{
    if n > 0 {
        joining_changes_nobody_else(players, sizes, client, first_id, (n - 1) as nat);
        let last = player_key(client, (n - 1) as u32);
        assert(!players.contains_key(last));
        assert forall|i: int| 0 <= i < n - 1 implies #[trigger] player_key(client, i as u32)
            != last by {}
    }
}

/// A client that joins changes nothing of what other clients are told: the field looks the same
/// before and after.
pub proof fn joining_leaves_the_field(
    players: Map<u64, Player>,
    live: Seq<u64>,
    sizes: Seq<u32>,
    client: u32,
    first_id: int,
    n: nat,
)
    requires
        clients_ok(players, client as int),
        forall|i: int| 0 <= i < live.len() ==> players.contains_key(#[trigger] live[i]),
        n <= u32::MAX,
    ensures
        ships_of(players_joined(players, sizes, client, first_id, n), live) == ships_of(
            players,
            live,
        ),
{
    let after = players_joined(players, sizes, client, first_id, n);
    joining_changes_nobody_else(players, sizes, client, first_id, n);
    assert forall|i: int| 0 <= i < live.len() implies #[trigger] ships_of(after, live)[i]
        == ships_of(players, live)[i] by {
        assert(players.contains_key(live[i]));
    }
    assert(ships_of(after, live) =~= ships_of(players, live));
}

/// A report sets the controls of the player that it is about, and nothing else of anybody.
pub proof fn reports_set_only_controls(
    players: Map<u64, Player>,
    reported: u64,
    update: ControllerState,
    key: u64,
)
    requires
        players.contains_key(key),
    ensures
        ({
            let after = players_heard(players, reported, update);
            &&& after.dom() == players.dom()
            &&& key == reported ==> after[key] == (Player { controller: update, ..players[key] })
            &&& key != reported ==> after[key] == players[key]
        }),
{
    assert(players_heard(players, reported, update).dom() =~= players.dom());
}

} // verus!
