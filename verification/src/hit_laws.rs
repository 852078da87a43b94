//! In which order hits are reported, counted and taken as deaths.
use crate::entity::{Bullet, EntityId, Player, Team};
use crate::hits::{
    all_hits, bullet_hits, bullet_row, distinct, ship_hits, ship_pair, ship_row, tally, Distances, HitMessage,
};
use crate::server_laws::in_reach;
use crate::tool_laws::{are_the_chosen, chosen_places, elements_at, lemma_chosen_places};
use vstd::prelude::*;

verus! {

/// Whether pairs are listed by their first parts, and those with the same first part by their
/// second parts, none of them twice.
pub open spec fn are_in_order(pairs: Seq<(int, int)>) -> bool {
    forall|k: int, l: int|
        0 <= k < l < pairs.len() ==> (#[trigger] pairs[k]).0 < (#[trigger] pairs[l]).0 || (
        pairs[k].0 == pairs[l].0 && pairs[k].1 < pairs[l].1)
}

/// Whether two ships of a list are different ones of different teams, the second one in reach of
/// the first.
pub open spec fn ships_meet(
    ships: Seq<Player>,
    distances: Distances,
    a: int,
    b: int,
) -> bool {
    &&& ships[a].shared.entity_id != ships[b].shared.entity_id
    &&& in_reach(
        ships[a].shared.owning_team,
        ships[b].shared.owning_team,
        distances.between_players@[a]@[b],
    )
}

/// Whether a bullet of a list is in reach of a ship of another team.
pub open spec fn bullet_meets(
    ships: Seq<Player>,
    bullets: Seq<Bullet>,
    distances: Distances,
    p: int,
    b: int,
) -> bool {
    in_reach(
        ships[p].shared.owning_team,
        bullets[b].shared.owning_team,
        distances.to_bullets@[p]@[b],
    )
}

spec fn meetings(ships: Seq<Player>, distances: Distances) -> spec_fn(int, int) -> bool {
    |a: int, b: int| ships_meet(ships, distances, a, b)
}

spec fn shots(
    ships: Seq<Player>,
    bullets: Seq<Bullet>,
    distances: Distances,
) -> spec_fn(int, int) -> bool {
    |p: int, b: int| bullet_meets(ships, bullets, distances, p, b)
}

/// The pairs for which a table says so, in its first rows and in the first columns of the next.
spec fn cells(table: spec_fn(int, int) -> bool, width: nat, rows: nat, columns: nat) -> Seq<
    (int, int),
>
    decreases rows, columns,
{
    if columns > 0 {
        let before = cells(table, width, rows, (columns - 1) as nat);
        if table(rows as int, columns - 1) {
            before.push((rows as int, columns - 1))
        } else {
            before
        }
    } else if rows > 0 {
        cells(table, width, (rows - 1) as nat, width)
    } else {
        Seq::empty()
    }
}

proof fn lemma_cells(table: spec_fn(int, int) -> bool, width: nat, rows: nat, columns: nat)
    requires
        columns <= width,
    ensures
        are_in_order(cells(table, width, rows, columns)),
        forall|a: int, b: int| #[trigger]
            cells(table, width, rows, columns).contains((a, b)) <==> {
                &&& 0 <= a && 0 <= b < width
                &&& a < rows || a == rows && b < columns
                &&& table(a, b)
            },
    decreases rows, columns,
{
    let all = cells(table, width, rows, columns);
    if columns > 0 {
        let c = columns - 1;
        let before = cells(table, width, rows, c as nat);
        lemma_cells(table, width, rows, c as nat);
        assert forall|k: int| 0 <= k < before.len() implies (#[trigger] before[k]).0 < rows
            || before[k].0 == rows && before[k].1 < c by {
            assert(before.contains((before[k].0, before[k].1)));
        }
        assert forall|a: int, b: int| #[trigger] all.contains((a, b)) <==> {
            &&& 0 <= a && 0 <= b < width
            &&& a < rows || a == rows && b < columns
            &&& table(a, b)
        } by {
            assert(before.contains((a, b)) <==> {
                &&& 0 <= a && 0 <= b < width
                &&& a < rows || a == rows && b < c
                &&& table(a, b)
            });
            if before.contains((a, b)) {
                let k = choose|k: int| 0 <= k < before.len() && before[k] == (a, b);
                assert(all[k] == (a, b));
            }
            if all.contains((a, b)) {
                let k = choose|k: int| 0 <= k < all.len() && all[k] == (a, b);
                if k < before.len() {
                    assert(before[k] == (a, b));
                }
            }
            if a == rows && b == c && table(a, b) {
                assert(all[before.len() as int] == (a, b));
            }
        }
        assert(are_in_order(all));
    } else if rows > 0 {
        lemma_cells(table, width, (rows - 1) as nat, width);
        assert forall|a: int, b: int| #[trigger] all.contains((a, b)) <==> {
            &&& 0 <= a && 0 <= b < width
            &&& a < rows || a == rows && b < columns
            &&& table(a, b)
        } by {}
    }
}

/// Whether two hits are those of two ships, and nobody scores.
pub open spec fn are_the_ships(first: HitMessage, second: HitMessage, a: int, b: int) -> bool {
    &&& first.killer is None
    &&& first.victim_id == EntityId::Player(a as usize)
    &&& second.killer is None
    &&& second.victim_id == EntityId::Player(b as usize)
}

/// Whether hits come in pairs, those of two ships of a pair each.
pub open spec fn are_of_ships(hits: Seq<HitMessage>, pairs: Seq<(int, int)>) -> bool {
    &&& hits.len() == 2 * pairs.len()
    &&& forall|k: int|
        0 <= k < pairs.len() ==> are_the_ships(
            hits[2 * k],
            hits[2 * k + 1],
            (#[trigger] pairs[k]).0,
            pairs[k].1,
        )
}

/// Whether hits come in pairs, those of the ship, for the bullet's team, and of the bullet of a
/// pair each.
pub open spec fn are_of_bullets(
    hits: Seq<HitMessage>,
    pairs: Seq<(int, int)>,
    bullets: Seq<Bullet>,
) -> bool {
    &&& hits.len() == 2 * pairs.len()
    &&& forall|k: int|
        0 <= k < pairs.len() ==> {
            &&& hits[2 * k].killer == Some(bullets[pairs[k].1].shared.owning_team)
            &&& hits[2 * k].victim_id == EntityId::Player((#[trigger] pairs[k]).0 as usize)
            &&& hits[2 * k + 1].killer is None
            &&& hits[2 * k + 1].victim_id == EntityId::Bullet(pairs[k].1 as usize)
        }
}

proof fn lemma_one_more_pair(hits: Seq<HitMessage>, pairs: Seq<(int, int)>, a: int, b: int)
    requires
        are_of_ships(hits, pairs),
    ensures
        are_of_ships(hits + ship_pair(a, b), pairs.push((a, b))),
{
    let more = hits + ship_pair(a, b);
    let all = pairs.push((a, b));
    assert forall|k: int| 0 <= k < all.len() implies are_the_ships(
        more[2 * k],
        more[2 * k + 1],
        (#[trigger] all[k]).0,
        all[k].1,
    ) by {
        if k < pairs.len() {
            assert(all[k] == pairs[k]);
            assert(more[2 * k] == hits[2 * k] && more[2 * k + 1] == hits[2 * k + 1]);
        } else {
            assert(more[2 * k] == ship_pair(a, b)[0] && more[2 * k + 1] == ship_pair(a, b)[1]);
        }
    }
}

proof fn lemma_ship_cells(ships: Seq<Player>, distances: Distances, rows: nat, columns: nat)
    requires
        columns <= ships.len(),
    ensures
        are_of_ships(
            ship_hits(ships, distances.between_players@, rows) + ship_row(
                ships,
                distances.between_players@,
                rows as int,
                columns,
            ),
            cells(meetings(ships, distances), ships.len(), rows, columns),
        ),
    decreases rows, columns,
{
    let between = distances.between_players@;
    let table = meetings(ships, distances);
    let above = ship_hits(ships, between, rows);
    let row = ship_row(ships, between, rows as int, columns);
    let pairs = cells(table, ships.len(), rows, columns);
    if columns > 0 {
        let c = columns - 1;
        lemma_ship_cells(ships, distances, rows, c as nat);
        let earlier = ship_row(ships, between, rows as int, c as nat);
        let before = cells(table, ships.len(), rows, c as nat);
        assert(crate::hits::ships_hit(ships, between, rows as int, c) == table(rows as int, c));
        if table(rows as int, c) {
            lemma_one_more_pair(above + earlier, before, rows as int, c);
            assert(above + row =~= (above + earlier) + ship_pair(rows as int, c));
        }
    } else if rows > 0 {
        lemma_ship_cells(ships, distances, (rows - 1) as nat, ships.len());
        assert(above + row =~= above);
    } else {
        assert(above + row =~= Seq::empty());
    }
}

proof fn lemma_bullet_cells(
    ships: Seq<Player>,
    bullets: Seq<Bullet>,
    distances: Distances,
    rows: nat,
    columns: nat,
)
    requires
        columns <= bullets.len(),
    ensures
        are_of_bullets(
            bullet_hits(ships, bullets, distances.to_bullets@, rows) + bullet_row(
                ships,
                bullets,
                distances.to_bullets@,
                rows as int,
                columns,
            ),
            cells(shots(ships, bullets, distances), bullets.len(), rows, columns),
            bullets,
        ),
    decreases rows, columns,
{
    let to_bullets = distances.to_bullets@;
    let table = shots(ships, bullets, distances);
    let above = bullet_hits(ships, bullets, to_bullets, rows);
    let row = bullet_row(ships, bullets, to_bullets, rows as int, columns);
    let pairs = cells(table, bullets.len(), rows, columns);
    if columns > 0 {
        let c = columns - 1;
        lemma_bullet_cells(ships, bullets, distances, rows, c as nat);
        let earlier = bullet_row(ships, bullets, to_bullets, rows as int, c as nat);
        let before = cells(table, bullets.len(), rows, c as nat);
        let hits = above + row;
        let fewer = above + earlier;
        assert(crate::hits::bullet_hits_ship(ships, bullets, to_bullets, rows as int, c) == table(
            rows as int,
            c,
        ));
        assert forall|k: int| 0 <= k < pairs.len() implies {
            &&& hits[2 * k].killer == Some(bullets[pairs[k].1].shared.owning_team)
            &&& hits[2 * k].victim_id == EntityId::Player((#[trigger] pairs[k]).0 as usize)
            &&& hits[2 * k + 1].killer is None
            &&& hits[2 * k + 1].victim_id == EntityId::Bullet(pairs[k].1 as usize)
        } by {
            if k < before.len() {
                assert(pairs[k] == before[k]);
                assert(hits[2 * k] == fewer[2 * k] && hits[2 * k + 1] == fewer[2 * k + 1]);
            }
        }
        assert(hits.len() == 2 * pairs.len());
    } else if rows > 0 {
        lemma_bullet_cells(ships, bullets, distances, (rows - 1) as nat, bullets.len());
        assert(above + row =~= above);
    } else {
        assert(above + row =~= Seq::empty());
    }
}

/// Hits are reported two by two: first those of every two ships that meet, both ships each time,
/// then those of every ship and every bullet that meet, ship and bullet each time; ships and
/// bullets in the order of their lists.
pub proof fn hits_are_reported_two_by_two(
    ships: Seq<Player>,
    bullets: Seq<Bullet>,
    distances: Distances,
)
    ensures
        exists|of_ships: Seq<(int, int)>, of_bullets: Seq<(int, int)>|
            #![trigger are_in_order(of_ships), are_in_order(of_bullets)]
            {
                let hits = all_hits(ships, bullets, distances);
                let split = 2 * of_ships.len() as int;
                &&& are_in_order(of_ships)
                &&& are_in_order(of_bullets)
                &&& forall|a: int, b: int| #[trigger]
                    of_ships.contains((a, b)) <==> 0 <= a < ships.len() && 0 <= b < ships.len()
                        && ships_meet(ships, distances, a, b)
                &&& forall|p: int, b: int| #[trigger]
                    of_bullets.contains((p, b)) <==> 0 <= p < ships.len() && 0 <= b
                        < bullets.len() && bullet_meets(ships, bullets, distances, p, b)
                &&& hits.len() >= split
                &&& are_of_ships(hits.take(split), of_ships)
                &&& are_of_bullets(hits.skip(split), of_bullets, bullets)
            },
{
    let n = ships.len();
    let met = meetings(ships, distances);
    let shot = shots(ships, bullets, distances);
    let of_ships = cells(met, n, n, 0);
    let of_bullets = cells(shot, bullets.len(), n, 0);
    lemma_cells(met, n, n, 0);
    lemma_cells(shot, bullets.len(), n, 0);
    lemma_ship_cells(ships, distances, n, 0);
    lemma_bullet_cells(ships, bullets, distances, n, 0);
    let first = ship_hits(ships, distances.between_players@, n);
    let second = bullet_hits(ships, bullets, distances.to_bullets@, n);
    assert(first + ship_row(ships, distances.between_players@, n as int, 0) =~= first);
    assert(second + bullet_row(ships, bullets, distances.to_bullets@, n as int, 0) =~= second);
    let hits = all_hits(ships, bullets, distances);
    let split = 2 * of_ships.len() as int;
    assert(hits.take(split) =~= first);
    assert(hits.skip(split) =~= second);
    assert(are_in_order(of_ships) && are_in_order(of_bullets));
}

/// For each element of a list, whether it is none of those before it.
pub open spec fn is_first(list: Seq<EntityId>) -> Seq<bool> {
    Seq::new(list.len(), |i: int| forall|j: int| 0 <= j < i ==> #[trigger] list[j] != list[i])
}

proof fn lemma_distinct_are_first(list: Seq<EntityId>)
    ensures
        distinct(list) == elements_at(list, chosen_places(is_first(list))),
        forall|e: EntityId| #[trigger] distinct(list).contains(e) <==> list.contains(e),
    decreases list.len(),
{
    crate::hits::each_victim_dies_once(list);
    if list.len() > 0 {
        let front = list.drop_last();
        let last = list.last();
        lemma_distinct_are_first(front);
        let chosen = is_first(list);
        assert(chosen.drop_last() =~= is_first(front)) by {
            assert forall|i: int| 0 <= i < front.len() implies chosen.drop_last()[i] == is_first(
                front,
            )[i] by {
                if chosen[i] {
                    assert forall|j: int| 0 <= j < i implies #[trigger] front[j] != front[i] by {
                        assert(list[j] != list[i]);
                    }
                }
                if is_first(front)[i] {
                    assert forall|j: int| 0 <= j < i implies #[trigger] list[j] != list[i] by {
                        assert(front[j] != front[i]);
                    }
                }
            }
        }
        assert(chosen.last() <==> !front.contains(last)) by {
            if chosen.last() && front.contains(last) {
                let j = choose|j: int| 0 <= j < front.len() && front[j] == last;
                assert(list[j] != list[list.len() - 1]);
            }
            if !front.contains(last) {
                assert forall|j: int| 0 <= j < list.len() - 1 implies #[trigger] list[j]
                    != list[list.len() - 1] by {
                    assert(front[j] == list[j]);
                    assert(front.contains(front[j]));
                }
            }
        }
        assert(distinct(front).contains(last) <==> front.contains(last));
        lemma_chosen_places(chosen.drop_last());
    }
    assert(distinct(list) =~= elements_at(list, chosen_places(is_first(list))));
}

/// Of what is hit more than once the first hit counts: what dies is listed once each, in the
/// order in which it is first hit.
pub proof fn the_first_hit_counts(list: Seq<EntityId>)
    ensures
        exists|places: Seq<int>|
            {
                &&& are_the_chosen(places, is_first(list))
                &&& distinct(list) == #[trigger] elements_at(list, places)
            },
{
    lemma_distinct_are_first(list);
    lemma_chosen_places(is_first(list));
    assert(distinct(list) == elements_at(list, chosen_places(is_first(list))));
}

/// For each team of a list, whether it is the given one.
pub open spec fn is_team_of(teams: Seq<Team>, team: int) -> Seq<bool> {
    Seq::new(teams.len(), |i: int| teams[i].0 == team)
}

proof fn lemma_tally_counts(teams: Seq<Team>, team: int)
    ensures
        tally(teams, team) == chosen_places(is_team_of(teams, team)).len(),
    decreases teams.len(),
{
    if teams.len() > 0 {
        lemma_tally_counts(teams.drop_last(), team);
        assert(is_team_of(teams, team).drop_last() =~= is_team_of(teams.drop_last(), team));
    }
}

/// A team has as many points in a list of kills as there are places with its name.
pub proof fn points_are_counted(teams: Seq<Team>, team: int)
    ensures
        exists|places: Seq<int>|
            {
                &&& #[trigger] are_the_chosen(places, is_team_of(teams, team))
                &&& tally(teams, team) == places.len()
            },
{
    lemma_tally_counts(teams, team);
    lemma_chosen_places(is_team_of(teams, team));
    assert(are_the_chosen(chosen_places(is_team_of(teams, team)), is_team_of(teams, team)));
}

} // verus!
