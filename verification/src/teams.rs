//! Which team a new player joins.
use crate::entity::{Player, Team};
use std::collections::HashMap;
use vstd::prelude::*;

verus! {

broadcast use vstd::std_specs::hash::group_hash_axioms;

/// How many teams players are put in: the low eight bits of the number of teams, since a team
/// has an eight-bit number.
pub open spec fn teams_in_play(num_teams: usize) -> nat {
    (num_teams % 256) as nat
}

/// The players of a team.
pub open spec fn team_members(players: Map<u64, Player>, team: int) -> Set<u64> {
    players.dom().filter(|key: u64| players[key].shared.owning_team.0 == team)
}

/// How many players a team has.
pub open spec fn team_size(players: Map<u64, Player>, team: int) -> nat {
    team_members(players, team).len()
}

/// How many of some players are in a team.
pub open spec fn members_among(players: Map<u64, Player>, keys: Seq<u64>, team: int) -> nat
    decreases keys.len(),
{
    if keys.len() == 0 {
        0
    } else {
        members_among(players, keys.drop_last(), team) + if players[keys.last()].shared.owning_team.0
            == team {
            1nat
        } else {
            0nat
        }
    }
}

proof fn lemma_members_among(players: Map<u64, Player>, keys: Seq<u64>, team: int)
    requires
        keys.no_duplicates(),
        keys.to_set().subset_of(players.dom()),
    ensures
        members_among(players, keys, team) == team_members(players, team).intersect(
            keys.to_set(),
        ).len(),
        team_members(players, team).intersect(keys.to_set()).finite(),
    decreases keys.len(),
{
    let members = team_members(players, team);
    if keys.len() == 0 {
        assert(members.intersect(keys.to_set()) =~= Set::empty());
    } else {
        let front = keys.drop_last();
        let last = keys.last();
        assert(front.to_set().subset_of(players.dom())) by {
            assert forall|k: u64| front.to_set().contains(k) implies players.dom().contains(k) by {
                let i = choose|i: int| 0 <= i < front.len() && front[i] == k;
                assert(keys[i] == k);
                assert(keys.to_set().contains(k));
            }
        }
        lemma_members_among(players, front, team);
        assert(keys.to_set() =~= front.to_set().insert(last)) by {
            assert forall|k: u64| keys.to_set().contains(k) <==> front.to_set().insert(last).contains(
                k,
            ) by {
                if keys.to_set().contains(k) {
                    let i = choose|i: int| 0 <= i < keys.len() && keys[i] == k;
                    if i < front.len() {
                        assert(front[i] == k);
                    }
                }
                if front.contains(k) {
                    let i = choose|i: int| 0 <= i < front.len() && front[i] == k;
                    assert(keys[i] == k);
                }
                assert(keys[keys.len() - 1] == last);
            }
        }
        assert(!front.to_set().contains(last)) by {
            if front.contains(last) {
                let i = choose|i: int| 0 <= i < front.len() && front[i] == last;
                assert(keys[i] == keys[keys.len() - 1]);
            }
        }
        assert(keys.to_set().contains(last));
        if players[last].shared.owning_team.0 == team {
            assert(members.intersect(keys.to_set()) =~= members.intersect(front.to_set()).insert(
                last,
            ));
        } else {
            assert(members.intersect(keys.to_set()) =~= members.intersect(front.to_set()));
        }
    }
}

/// Counts the players of each team in play.
pub fn count_teams(players: &HashMap<u64, Player>, num_teams: usize) -> (sizes: Vec<u32>)
    requires
        players@.dom().len() <= u32::MAX,
    ensures
        sizes@.len() == teams_in_play(num_teams),
        forall|t: int| 0 <= t < sizes@.len() ==> #[trigger] sizes@[t] == team_size(players@, t),
{
    let count: usize = num_teams % 256;
    let mut sizes: Vec<u32> = Vec::new();
    for t in 0..count
        invariant
            sizes@.len() == t,
            forall|u: int| 0 <= u < t ==> #[trigger] sizes@[u] == 0,
    {
        sizes.push(0);
    }
    let ghost keys: Seq<u64> = vstd::std_specs::iter::IteratorSpec::remaining(
        &players.keys(),
    ).unref();
    for key in iter: players.keys()
        invariant
            players@.dom().len() <= u32::MAX,
            iter.seq().unref() == keys,
            keys.len() == players@.dom().len(),
            keys.to_set() == players@.dom(),
            keys.no_duplicates(),
            sizes@.len() == count,
            forall|t: int|
                0 <= t < count ==> #[trigger] sizes@[t] == members_among(
                    players@,
                    keys.take(iter.index() as int),
                    t,
                ),
            forall|t: int|
                0 <= t < count ==> #[trigger] sizes@[t] <= iter.index(),
    {
        let ghost n = iter.index() as int;
        assert(*key == keys[n]);
        assert(keys.contains(keys[n]));
        assert(keys.to_set().contains(*key));
        assert(keys.take(n + 1).drop_last() =~= keys.take(n));
        if let Some(player) = players.get(key) {
            let team: usize = player.shared.owning_team.0 as usize;
            if team < count {
                let size: u32 = sizes[team];
                sizes.set(team, size + 1);
            }
        }
    }
    proof {
        assert(keys.take(keys.len() as int) =~= keys);
        assert forall|t: int| 0 <= t < count implies #[trigger] sizes@[t] == team_size(
            players@,
            t,
        ) by {
            lemma_members_among(players@, keys, t);
            assert(team_members(players@, t).intersect(keys.to_set()) =~= team_members(
                players@,
                t,
            ));
        }
    }
    sizes
}

/// The place of the smallest of the first `n` numbers; of equal ones, the first.
pub open spec fn smallest_of_first(sizes: Seq<u32>, n: nat) -> int
    decreases n,
{
    if n <= 1 {
        0
    } else {
        let best = smallest_of_first(sizes, (n - 1) as nat);
        if sizes[n - 1] < sizes[best] {
            n - 1
        } else {
            best
        }
    }
}

/// The team that the next player joins: one with the fewest players; of several, the one with
/// the lowest number. Without any team in play it is team 0.
pub open spec fn team_to_join(sizes: Seq<u32>) -> int {
    smallest_of_first(sizes, sizes.len())
}

/// The team that the next player joins, given the sizes of the teams in play.
pub fn smallest_team(sizes: &Vec<u32>) -> (team: Team)
    requires
        sizes@.len() <= 256,
    ensures
        team.0 == team_to_join(sizes@),
{
    let mut best: usize = 0;
    let mut n: usize = 1;
    while n < sizes.len()
        invariant
            1 <= n,
            n <= sizes@.len() || (n == 1 && sizes@.len() == 0),
            best < n,
            best == smallest_of_first(sizes@, n as nat),
        decreases sizes@.len() - n,
    {
        if sizes[n] < sizes[best] {
            best = n;
        }
        n = n + 1;
    }
    Team(best as u8)
}

/// The team to join has the fewest players of all teams in play.
pub proof fn joined_team_is_smallest(sizes: Seq<u32>)
    requires
        sizes.len() > 0,
    ensures
        0 <= team_to_join(sizes) < sizes.len(),
        forall|t: int| 0 <= t < sizes.len() ==> sizes[team_to_join(sizes)] <= #[trigger] sizes[t],
{
    lemma_smallest_of_first(sizes, sizes.len());
}

proof fn lemma_smallest_of_first(sizes: Seq<u32>, n: nat)
    requires
        0 < n <= sizes.len(),
    ensures
        0 <= smallest_of_first(sizes, n) < n,
        forall|t: int| 0 <= t < n ==> sizes[smallest_of_first(sizes, n)] <= #[trigger] sizes[t],
    decreases n,
{
    if n > 1 {
        lemma_smallest_of_first(sizes, (n - 1) as nat);
    }
}

/// The team sizes after one more player has joined.
pub open spec fn sizes_after_one(sizes: Seq<u32>) -> Seq<u32> {
    if sizes.len() == 0 {
        sizes
    } else {
        sizes.update(team_to_join(sizes), (sizes[team_to_join(sizes)] + 1) as u32)
    }
}

/// The team sizes after so many players have joined one after the other.
pub open spec fn sizes_after(sizes: Seq<u32>, joined: nat) -> Seq<u32>
    decreases joined,
{
    if joined == 0 {
        sizes
    } else {
        sizes_after_one(sizes_after(sizes, (joined - 1) as nat))
    }
}

/// Whether no team in play has more than one player more than any other.
pub open spec fn balanced(sizes: Seq<u32>) -> bool {
    forall|t: int, u: int|
        0 <= t < sizes.len() && 0 <= u < sizes.len() ==> #[trigger] sizes[t] <= #[trigger] sizes[u]
            + 1
}

/// Joining keeps the teams balanced.
pub proof fn joining_keeps_balance(sizes: Seq<u32>)
    requires
        balanced(sizes),
        forall|t: int| 0 <= t < sizes.len() ==> #[trigger] sizes[t] < u32::MAX,
    ensures
        balanced(sizes_after_one(sizes)),
{
    if sizes.len() > 0 {
        joined_team_is_smallest(sizes);
    }
}

/// A new player makes its team larger by one and leaves the other teams as they were.
pub proof fn new_player_grows_its_team(
    players: Map<u64, Player>,
    key: u64,
    player: Player,
    team: int,
)
    requires
        players.dom().finite(),
        !players.contains_key(key),
    ensures
        team_size(players.insert(key, player), team) == team_size(players, team)
            + if player.shared.owning_team.0 == team {
            1nat
        } else {
            0nat
        },
{
    let after = players.insert(key, player);
    if player.shared.owning_team.0 == team {
        assert(team_members(after, team) =~= team_members(players, team).insert(key));
    } else {
        assert(team_members(after, team) =~= team_members(players, team));
    }
}

/// Players who stay in their teams leave all team sizes as they were.
pub proof fn same_teams_same_sizes(before: Map<u64, Player>, after: Map<u64, Player>, team: int)
    requires
        before.dom() == after.dom(),
        forall|key: u64| #[trigger]
            before.contains_key(key) ==> after[key].shared.owning_team
                == before[key].shared.owning_team,
    ensures
        team_size(after, team) == team_size(before, team),
{
    assert(team_members(after, team) =~= team_members(before, team)) by {
        assert forall|key: u64| team_members(after, team).contains(key) <==> team_members(
            before,
            team,
        ).contains(key) by {
            if before.contains_key(key) {
                assert(after[key].shared.owning_team == before[key].shared.owning_team);
            }
        }
    }
}

} // verus!
