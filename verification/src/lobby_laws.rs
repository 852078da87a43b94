//! What joining and reporting do, said player by player.
use crate::entity::Player;
use crate::field_laws::new_clients_are_told_everything;
use crate::lobby::{
    answered, heard, joining_changes_nobody_else, players_joined, taken_in, team_sizes, welcomed,
};
use crate::packets::{ClientMessage, ServerHandshake};
use crate::teams::{
    new_player_grows_its_team, sizes_after, team_members, team_size, team_to_join, teams_in_play,
};
use crate::world::{clients_ok, player_key, World};
use vstd::prelude::*;

verus! {

broadcast use vstd::std_specs::hash::group_hash_axioms;

/// The players of a team among those with a key below a given one.
pub open spec fn earlier_members(players: Map<u64, Player>, key: u64, team: int) -> Set<u64> {
    players.dom().filter(|k: u64| k < key && players[k].shared.owning_team.0 == team)
}

/// Whether a player waits for the first ship: at rest, ready to fire from 0.2 on, with no
/// control held down.
pub open spec fn is_fresh(player: Player) -> bool {
    &&& player.shared.position.x.bits == 0 && player.shared.position.y.bits == 0
    &&& player.shared.velocity.x.bits == 0 && player.shared.velocity.y.bits == 0
    &&& player.shared.rotation.bits == 0
    &&& player.acceleration.x.bits == 0 && player.acceleration.y.bits == 0
    &&& player.fire_ready.bits == 0x3fc9_9999_9999_999a
    &&& !player.controller.up && !player.controller.down && !player.controller.left
    &&& !player.controller.right && !player.controller.fire
}

proof fn lemma_first_smallest(sizes: Seq<u32>, n: nat)
    requires
        0 < n <= sizes.len(),
    ensures
        ({
            let best = crate::teams::smallest_of_first(sizes, n);
            &&& 0 <= best < n
            &&& forall|t: int| 0 <= t < n ==> sizes[best] <= #[trigger] sizes[t]
            &&& forall|t: int| 0 <= t < best ==> sizes[best] < #[trigger] sizes[t]
        }),
    decreases n,
{
    if n > 1 {
        lemma_first_smallest(sizes, (n - 1) as nat);
    }
}

/// The team that a player joins is one of the smallest, and of these the one with the lowest
/// number.
pub proof fn the_first_of_the_smallest_teams_is_joined(sizes: Seq<u32>)
    requires
        sizes.len() > 0,
    ensures
        0 <= team_to_join(sizes) < sizes.len(),
        forall|t: int| 0 <= t < sizes.len() ==> sizes[team_to_join(sizes)] <= #[trigger] sizes[t],
        forall|t: int|
            0 <= t < team_to_join(sizes) ==> sizes[team_to_join(sizes)] < #[trigger] sizes[t],
{
    lemma_first_smallest(sizes, sizes.len());
}

proof fn lemma_joined(before: World, n: nat)
    requires
        before.well_formed(),
        before.entity_ids.0 + n <= u32::MAX,
    ensures
        ({
            let client = before.client_ids.0;
            let sizes = team_sizes(before.players@, before.num_teams);
            let joined = players_joined(
                before.players@,
                sizes,
                client,
                before.entity_ids.0 as int,
                n,
            );
            let grown = sizes_after(sizes, n);
            &&& joined.dom().finite()
            &&& joined.dom().len() == before.players@.dom().len() + n
            &&& forall|key: u64| #[trigger]
                joined.contains_key(key) <==> before.players@.contains_key(key) || client
                    * 0x1_0000_0000 <= key < client * 0x1_0000_0000 + n
            &&& grown.len() == teams_in_play(before.num_teams)
            &&& forall|t: int|
                0 <= t < grown.len() ==> #[trigger] grown[t] == team_size(joined, t)
        }),
    decreases n,
{
    let client = before.client_ids.0;
    let first_id = before.entity_ids.0 as int;
    let sizes = team_sizes(before.players@, before.num_teams);
    let joined = players_joined(before.players@, sizes, client, first_id, n);
    let grown = sizes_after(sizes, n);
    if n == 0 {
        assert forall|t: int| 0 <= t < grown.len() implies #[trigger] grown[t] == team_size(
            joined,
            t,
        ) by {
            vstd::set_lib::lemma_len_subset(team_members(joined, t), joined.dom());
        }
    } else {
        let m = (n - 1) as nat;
        lemma_joined(before, m);
        let earlier = players_joined(before.players@, sizes, client, first_id, m);
        let small = sizes_after(sizes, m);
        let key = player_key(client, m as u32);
        let ship = joined[key];
        assert(!before.players@.contains_key(key));
        assert(!earlier.contains_key(key));
        assert(joined =~= earlier.insert(key, ship));
        if small.len() > 0 {
            the_first_of_the_smallest_teams_is_joined(small);
        }
        assert forall|t: int| 0 <= t < grown.len() implies #[trigger] grown[t] == team_size(
            joined,
            t,
        ) by {
            assert(small[t] == team_size(earlier, t));
            vstd::set_lib::lemma_len_subset(team_members(earlier, t), earlier.dom());
            new_player_grows_its_team(earlier, key, ship, t);
        }
    }
}

/// A client that is taken in gets exactly the players that it asks for, under the keys that its
/// number reserves, with the next ids in order, all of them fresh. Nobody else is changed, and
/// nothing happens on the field.
pub proof fn a_client_gets_exactly_its_players(before: World, n: nat, after: World)
    requires
        before.well_formed(),
        before.entity_ids.0 + n <= u32::MAX,
        taken_in(before, n, after),
    ensures
        ({
            let first = before.client_ids.0 * 0x1_0000_0000;
            &&& forall|key: u64| #[trigger]
                after.players@.contains_key(key) <==> before.players@.contains_key(key) || first
                    <= key < first + n
            &&& forall|key: u64| #[trigger]
                before.players@.contains_key(key) ==> after.players@[key] == before.players@[key]
            &&& forall|key: u64|
                first <= key < first + n ==> {
                    &&& (#[trigger] after.players@[key]).shared.entity_id == before.entity_ids.0 + (
                    key - first)
                    &&& is_fresh(after.players@[key])
                }
        }),
        after.client_ids.0 == before.client_ids.0 + 1,
        after.entity_ids.0 == before.entity_ids.0 + n,
        after.live@ == before.live@,
        after.spawning@ == before.spawning@,
        after.bullets@ == before.bullets@,
        after.scores@ == before.scores@,
        after.new_objects@ == before.new_objects@,
        after.deleted@ == before.deleted@,
        after.num_teams == before.num_teams,
{
    let client = before.client_ids.0;
    let first = client * 0x1_0000_0000;
    let sizes = team_sizes(before.players@, before.num_teams);
    lemma_joined(before, n);
    joining_changes_nobody_else(before.players@, sizes, client, before.entity_ids.0 as int, n);
    assert forall|key: u64| first <= key < first + n implies {
        &&& (#[trigger] after.players@[key]).shared.entity_id == before.entity_ids.0 + (key - first)
        &&& is_fresh(after.players@[key])
    } by {
        let i = key - first;
        assert(player_key(client, i as u32) == key);
    }
}

proof fn lemma_joined_earlier(
    players: Map<u64, Player>,
    sizes: Seq<u32>,
    client: u32,
    first_id: int,
    m: nat,
    n: nat,
)
    requires
        clients_ok(players, client as int),
        m <= n <= u32::MAX,
    ensures
        ({
            let early = players_joined(players, sizes, client, first_id, m);
            let late = players_joined(players, sizes, client, first_id, n);
            forall|key: u64|
                key < client * 0x1_0000_0000 + m ==> (#[trigger] early.contains_key(key)
                    <==> late.contains_key(key)) && (early.contains_key(key) ==> early[key]
                    == late[key])
        }),
    decreases n,
{
    if m < n {
        lemma_joined_earlier(players, sizes, client, first_id, m, (n - 1) as nat);
    }
}

/// Each player of a client that is taken in joins, of all teams in play, one that has the fewest
/// players at its turn, and of several such teams the one with the lowest number. Without any
/// team in play it joins team 0.
pub proof fn newcomers_join_the_smallest_team(before: World, n: nat, after: World, i: int)
    requires
        before.well_formed(),
        before.entity_ids.0 + n <= u32::MAX,
        taken_in(before, n, after),
        0 <= i < n,
    ensures
        ({
            let key = (before.client_ids.0 * 0x1_0000_0000 + i) as u64;
            let team = after.players@[key].shared.owning_team.0 as int;
            let teams = before.num_teams as int % 256;
            &&& teams == 0 ==> team == 0
            &&& teams > 0 ==> team < teams
            &&& forall|t: int|
                0 <= t < teams ==> earlier_members(after.players@, key, team).len() <= (
                #[trigger] earlier_members(after.players@, key, t)).len()
            &&& forall|t: int|
                0 <= t < team ==> earlier_members(after.players@, key, team).len() < (
                #[trigger] earlier_members(after.players@, key, t)).len()
        }),
{
    let client = before.client_ids.0;
    let first_id = before.entity_ids.0 as int;
    let key = (client * 0x1_0000_0000 + i) as u64;
    let teams = before.num_teams as int % 256;
    let sizes = team_sizes(before.players@, before.num_teams);
    let early = players_joined(before.players@, sizes, client, first_id, i as nat);
    let grown = sizes_after(sizes, i as nat);
    lemma_joined(before, i as nat);
    lemma_joined(before, n);
    joining_changes_nobody_else(before.players@, sizes, client, first_id, n);
    lemma_joined_earlier(before.players@, sizes, client, first_id, i as nat, n);
    assert(player_key(client, i as u32) == key);
    assert(grown.len() == teams);
    if teams > 0 {
        the_first_of_the_smallest_teams_is_joined(grown);
    }
    assert forall|t: int| 0 <= t < teams implies (#[trigger] earlier_members(
        after.players@,
        key,
        t,
    )).len() == grown[t] by {
        assert forall|k: u64| #[trigger]
            earlier_members(after.players@, key, t).contains(k) <==> team_members(
                early,
                t,
            ).contains(k) by {
            assert(early.contains_key(k) <==> before.players@.contains_key(k) || client
                * 0x1_0000_0000 <= k < client * 0x1_0000_0000 + i);
            if k < key {
                assert(early.contains_key(k) <==> after.players@.contains_key(k));
            }
        }
        assert(earlier_members(after.players@, key, t) =~= team_members(early, t));
    }
}

/// The first message of a client that does not ask to play changes nothing; one that does is
/// taken in with as many players as it asks for.
pub proof fn only_a_request_is_taken_in(before: World, message: ClientMessage, after: World)
    requires
        welcomed(before, message, after),
    ensures
        message is ControllerUpdate ==> after == before,
        message matches ClientMessage::Handshake(handshake) ==> {
            &&& after.client_ids.0 == before.client_ids.0 + 1
            &&& after.entity_ids.0 == before.entity_ids.0 + handshake.requested_players
            &&& after.dead@.len() == before.dead@.len() + handshake.requested_players
        },
{
}

/// Exactly a client that asks to play is answered: with the number under which it is taken in, so
/// that no two clients get the same one, and with the scores and every object of the field.
pub proof fn only_a_request_is_answered(
    before: World,
    message: ClientMessage,
    answer: Option<(u32, ServerHandshake)>,
    after: World,
)
    requires
        answered(before, message, answer),
        welcomed(before, message, after),
    ensures
        answer is Some <==> message is Handshake,
        answer matches Some((client, told)) ==> {
            &&& client == before.client_ids.0
            &&& client < after.client_ids.0
            &&& told.scores@ == before.scores@
            &&& told.objects@.len() == before.live@.len() + before.bullets@.len()
            &&& forall|i: int|
                0 <= i < before.live@.len() ==> (#[trigger] told.objects@[i]).0
                    == before.players@[before.live@[i]].shared.entity_id
            &&& forall|i: int|
                0 <= i < before.bullets@.len() ==> told.objects@[before.live@.len() + i].0 == (
                #[trigger] before.bullets@[i]).shared.entity_id
        },
{
    if let Some((client, told)) = answer {
        new_clients_are_told_everything(before, told);
        assert forall|i: int| 0 <= i < before.bullets@.len() implies told.objects@[before.live@.len()
            + i].0 == (#[trigger] before.bullets@[i]).shared.entity_id by {
            let place = before.live@.len() + i;
            assert(told.objects@[place].0 == before.bullets@[place
                - before.live@.len()].shared.entity_id);
        }
    }
}

/// A report sets exactly the controls of the player that the client's number and the player's
/// number at the client name, if there is one. Nothing else of anybody changes, and anything
/// else that a client says changes nothing.
pub proof fn a_report_reaches_its_player(
    before: World,
    client: u32,
    message: ClientMessage,
    after: World,
)
    requires
        heard(before, client, message, after),
    ensures
        after.players@.dom() == before.players@.dom(),
        forall|key: u64| #[trigger]
            before.players@.contains_key(key) ==> {
                let was = before.players@[key];
                let is = after.players@[key];
                &&& is.shared == was.shared
                &&& is.fire_ready == was.fire_ready
                &&& is.acceleration == was.acceleration
                &&& match message {
                    ClientMessage::ControllerUpdate(local, update) => if key == client
                        * 0x1_0000_0000 + local {
                        is.controller == update
                    } else {
                        is.controller == was.controller
                    },
                    ClientMessage::Handshake(_) => is.controller == was.controller,
                }
            },
        after.live@ == before.live@,
        after.spawning@ == before.spawning@,
        after.dead@ == before.dead@,
        after.bullets@ == before.bullets@,
        after.scores@ == before.scores@,
        after.new_objects@ == before.new_objects@,
        after.deleted@ == before.deleted@,
        after.entity_ids.0 == before.entity_ids.0,
        after.client_ids.0 == before.client_ids.0,
        after.num_teams == before.num_teams,
{
    assert(after.players@.dom() =~= before.players@.dom());
}

} // verus!
