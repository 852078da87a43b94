//! What the hits of a tick do, said of teams and distances alone.
use crate::battle::{
    entity_id_of, fought, ids_of, newly_dead, points_fit, scores_told, surviving_bullets,
    surviving_ships,
};
use crate::double::Double;
use crate::entity::{Bullet, EntityId, Player, Team};
use crate::graveyard::{ordering_loses_nobody, DeadPlayer};
use crate::hits::{
    all_hits, bullet_dies_exactly_where_it_hits, bullet_hits, bullet_hits_ship, bullet_pair,
    bullet_row, lemma_bullet_hits_members, lemma_concat_members, lemma_ship_hits_members, ship_pair,
    distinct, each_victim_dies_once, hit_parts, killers_of, ship_dies_exactly_where_touched,
    ship_hits, ship_row, ships_hit, tally, victims_are_on_the_field, victims_of, Distances,
    HitMessage,
};
use crate::packets::UpdateScore;
use crate::retain::{removed, removed_were_rejected};
use crate::server_laws::{in_reach, team_at};
use crate::tool_laws::{
    are_the_chosen, chosen_places, elements_at, lemma_chosen_places, lemma_kept_is_chosen,
};
use crate::unzip::firsts;
use crate::world::{live_players_are_known, ships_of, World};
use vstd::prelude::*;

verus! {

/// Whether a live ship is hit: an enemy ship is in reach of it or it of an enemy ship, or an
/// enemy bullet is in reach of it.
pub open spec fn ship_is_hit(world: World, distances: Distances, i: int) -> bool {
    ||| exists|j: int|
        0 <= j < world.live@.len() && in_reach(
            team_at(world, i),
            team_at(world, j),
            #[trigger] distances.between_players@[i]@[j],
        )
    ||| exists|j: int|
        0 <= j < world.live@.len() && in_reach(
            team_at(world, j),
            team_at(world, i),
            #[trigger] distances.between_players@[j]@[i],
        )
    ||| exists|b: int|
        0 <= b < world.bullets@.len() && in_reach(
            team_at(world, i),
            world.bullets@[b].shared.owning_team,
            #[trigger] distances.to_bullets@[i]@[b],
        )
}

/// Whether a bullet is hit: it is in reach of an enemy ship.
pub open spec fn bullet_is_hit(world: World, distances: Distances, b: int) -> bool {
    exists|p: int|
        0 <= p < world.live@.len() && in_reach(
            team_at(world, p),
            world.bullets@[b].shared.owning_team,
            #[trigger] distances.to_bullets@[p]@[b],
        )
}

/// The pairs of a live ship and a bullet of a team that is in reach of it.
pub open spec fn shot_down_by(world: World, distances: Distances, team: int) -> Set<(int, int)> {
    Set::new(
        |pair: (int, int)|
            {
                &&& 0 <= pair.0 < world.live@.len()
                &&& 0 <= pair.1 < world.bullets@.len()
                &&& world.bullets@[pair.1].shared.owning_team.0 == team
                &&& in_reach(
                    team_at(world, pair.0),
                    world.bullets@[pair.1].shared.owning_team,
                    distances.to_bullets@[pair.0]@[pair.1],
                )
            },
    )
}

proof fn lemma_firsts_of_concat<A, B>(
    a: Seq<(Option<A>, Option<B>)>,
    b: Seq<(Option<A>, Option<B>)>,
)
    ensures
        firsts(a + b) == firsts(a) + firsts(b),
    decreases b.len(),
{
    if b.len() == 0 {
        assert(a + b =~= a);
        assert(firsts(a) + firsts(b) =~= firsts(a));
    } else {
        lemma_firsts_of_concat(a, b.drop_last());
        assert((a + b).drop_last() =~= a + b.drop_last());
        assert((a + b).last() == b.last());
        assert(firsts(a + b) =~= firsts(a) + firsts(b));
    }
}

proof fn lemma_killers_of_concat(a: Seq<HitMessage>, b: Seq<HitMessage>)
    ensures
        killers_of(a + b) == killers_of(a) + killers_of(b),
{
    let parts = |hit: HitMessage| hit_parts(hit);
    assert((a + b).map_values(parts) =~= a.map_values(parts) + b.map_values(parts));
    lemma_firsts_of_concat(a.map_values(parts), b.map_values(parts));
}

proof fn lemma_tally_of_concat(a: Seq<Team>, b: Seq<Team>, team: int)
    ensures
        tally(a + b, team) == tally(a, team) + tally(b, team),
    decreases b.len(),
{
    if b.len() == 0 {
        assert(a + b =~= a);
    } else {
        lemma_tally_of_concat(a, b.drop_last(), team);
        assert((a + b).drop_last() =~= a + b.drop_last());
        assert((a + b).last() == b.last());
    }
}

proof fn lemma_killers_of_two(first: HitMessage, second: HitMessage)
    ensures
        killers_of(seq![first, second]) == match (first.killer, second.killer) {
            (Some(a), Some(b)) => seq![a, b],
            (Some(a), None) => seq![a],
            (None, Some(b)) => seq![b],
            (None, None) => Seq::empty(),
        },
{
    let parts = seq![first, second].map_values(|hit: HitMessage| hit_parts(hit));
    assert(parts.drop_last() =~= seq![hit_parts(first)]);
    assert(parts.drop_last().drop_last() =~= Seq::empty());
    reveal_with_fuel(firsts, 3);
    assert(parts.last() == hit_parts(second));
    assert(parts.drop_last().last() == hit_parts(first));
    assert(killers_of(seq![first, second]) =~= match (first.killer, second.killer) {
        (Some(a), Some(b)) => seq![a, b],
        (Some(a), None) => seq![a],
        (None, Some(b)) => seq![b],
        (None, None) => Seq::empty(),
    });
}

proof fn lemma_killers_of_none()
    ensures
        killers_of(Seq::empty()) == Seq::<Team>::empty(),
{
    let parts = Seq::<HitMessage>::empty().map_values(|hit: HitMessage| hit_parts(hit));
    assert(parts.len() == 0);
}

proof fn lemma_no_killer_in_row(
    ships: Seq<Player>,
    between: Seq<Vec<Double>>,
    a: int,
    columns: nat,
)
    ensures
        killers_of(ship_row(ships, between, a, columns)) == Seq::<Team>::empty(),
    decreases columns,
{
    lemma_killers_of_none();
    if columns > 0 {
        lemma_no_killer_in_row(ships, between, a, (columns - 1) as nat);
        let before = ship_row(ships, between, a, (columns - 1) as nat);
        let one = HitMessage { killer: None, victim_id: EntityId::Player(a as usize) };
        let other = HitMessage {
            killer: None,
            victim_id: EntityId::Player((columns - 1) as usize),
        };
        lemma_killers_of_two(one, other);
        lemma_killers_of_concat(before, seq![one, other]);
        assert(Seq::<Team>::empty() + Seq::<Team>::empty() =~= Seq::<Team>::empty());
    }
}

proof fn lemma_no_killer_among_ships(ships: Seq<Player>, between: Seq<Vec<Double>>, rows: nat)
    ensures
        killers_of(ship_hits(ships, between, rows)) == Seq::<Team>::empty(),
    decreases rows,
{
    lemma_killers_of_none();
    if rows > 0 {
        lemma_no_killer_among_ships(ships, between, (rows - 1) as nat);
        lemma_no_killer_in_row(ships, between, rows - 1, ships.len());
        lemma_killers_of_concat(
            ship_hits(ships, between, (rows - 1) as nat),
            ship_row(ships, between, rows - 1, ships.len()),
        );
        assert(Seq::<Team>::empty() + Seq::<Team>::empty() =~= Seq::<Team>::empty());
    }
}

/// The pairs of `shot_down_by` in the first `rows` ships, and with the first `columns` bullets in
/// the next one.
spec fn pairs_so_far(
    world: World,
    distances: Distances,
    team: int,
    rows: nat,
    columns: nat,
) -> Set<(int, int)> {
    shot_down_by(world, distances, team).filter(
        |pair: (int, int)| pair.0 < rows || (pair.0 == rows && pair.1 < columns),
    )
}

proof fn lemma_points(
    world: World,
    distances: Distances,
    team: int,
    rows: nat,
    columns: nat,
)
    requires
        rows <= world.live@.len(),
        columns <= world.bullets@.len(),
        columns > 0 ==> rows < world.live@.len(),
    ensures
        ({
            let ships = ships_of(world.players@, world.live@);
            let hits = bullet_hits(ships, world.bullets@, distances.to_bullets@, rows)
                + bullet_row(ships, world.bullets@, distances.to_bullets@, rows as int, columns);
            let pairs = pairs_so_far(world, distances, team, rows, columns);
            &&& pairs.finite()
            &&& pairs.len() == tally(killers_of(hits), team)
        }),
    decreases rows, columns,
{
    let ships = ships_of(world.players@, world.live@);
    let bullets = world.bullets@;
    let to_bullets = distances.to_bullets@;
    let above = bullet_hits(ships, bullets, to_bullets, rows);
    let row = bullet_row(ships, bullets, to_bullets, rows as int, columns);
    let pairs = pairs_so_far(world, distances, team, rows, columns);
    lemma_killers_of_none();
    if columns > 0 {
        let b = columns - 1;
        let earlier = bullet_row(ships, bullets, to_bullets, rows as int, b as nat);
        let fewer = pairs_so_far(world, distances, team, rows, b as nat);
        let pair = (rows as int, b);
        lemma_points(world, distances, team, rows, b as nat);
        assert(ships[rows as int] == world.players@[world.live@[rows as int]]);
        if bullet_hits_ship(ships, bullets, to_bullets, rows as int, b) {
            let shooter = bullets[b].shared.owning_team;
            let one = HitMessage {
                killer: Some(shooter),
                victim_id: EntityId::Player(rows as usize),
            };
            let other = HitMessage { killer: None, victim_id: EntityId::Bullet(b as usize) };
            lemma_killers_of_two(one, other);
            assert(above + row =~= (above + earlier) + seq![one, other]);
            lemma_killers_of_concat(above + earlier, seq![one, other]);
            lemma_tally_of_concat(killers_of(above + earlier), seq![shooter], team);
            assert(seq![shooter].drop_last() =~= Seq::empty());
            assert(tally(seq![shooter], team) == if shooter.0 == team { 1nat } else { 0nat }) by {
                reveal_with_fuel(tally, 2);
            }
            if shooter.0 == team {
                assert(in_reach(
                    team_at(world, rows as int),
                    shooter,
                    distances.to_bullets@[rows as int]@[b],
                ));
                assert(pairs =~= fewer.insert(pair));
                assert(!fewer.contains(pair));
            } else {
                assert(pairs =~= fewer);
            }
        } else {
            assert(!in_reach(
                team_at(world, rows as int),
                bullets[b].shared.owning_team,
                distances.to_bullets@[rows as int]@[b],
            ));
            assert(pairs =~= fewer);
        }
    } else if rows > 0 {
        lemma_points(world, distances, team, (rows - 1) as nat, bullets.len());
        let fewer = pairs_so_far(world, distances, team, (rows - 1) as nat, bullets.len());
        assert(pairs =~= fewer);
        assert(above + row =~= above);
    } else {
        assert(pairs =~= Set::empty());
        assert(above + row =~= Seq::empty());
    }
}

proof fn lemma_points_of_all(world: World, distances: Distances, team: int)
    ensures
        shot_down_by(world, distances, team).finite(),
        shot_down_by(world, distances, team).len() == tally(
            killers_of(
                all_hits(ships_of(world.players@, world.live@), world.bullets@, distances),
            ),
            team,
        ),
{
    let ships = ships_of(world.players@, world.live@);
    let of_ships = ship_hits(ships, distances.between_players@, ships.len());
    let of_bullets = bullet_hits(ships, world.bullets@, distances.to_bullets@, ships.len());
    lemma_no_killer_among_ships(ships, distances.between_players@, ships.len());
    lemma_killers_of_concat(of_ships, of_bullets);
    assert(killers_of(of_ships) + killers_of(of_bullets) =~= killers_of(of_bullets));
    lemma_points(world, distances, team, ships.len(), 0);
    assert(of_bullets + bullet_row(
        ships,
        world.bullets@,
        distances.to_bullets@,
        ships.len() as int,
        0,
    ) =~= of_bullets);
    assert(pairs_so_far(world, distances, team, ships.len(), 0) =~= shot_down_by(
        world,
        distances,
        team,
    ));
}

/// A bullet scores for its team once for every ship of another team that is closer to it than
/// the radius of a ship, whichever team has the lower number, and nothing else scores: that many
/// points each team gains.
pub proof fn every_enemy_shot_down_is_a_point(
    before: World,
    distances: Distances,
    now: Double,
    respawn_at: Double,
    after: World,
    team: int,
)
    requires
        fought(before, distances, now, respawn_at, after),
        0 <= team < before.scores@.len(),
        before.scores@[team] + shot_down_by(before, distances, team).len() <= u32::MAX,
    ensures
        shot_down_by(before, distances, team).finite(),
        after.scores@.len() == before.scores@.len(),
        after.scores@[team] == before.scores@[team] + shot_down_by(before, distances, team).len(),
{
    lemma_points_of_all(before, distances, team);
}

/// The scores can hold the points of a tick exactly where, for each team, its score and the
/// number of ships that its bullets shoot down are no more than the largest number together.
pub proof fn points_fit_where_the_sums_do(world: World, distances: Distances)
    ensures
        points_fit(
            world.scores@,
            killers_of(
                all_hits(ships_of(world.players@, world.live@), world.bullets@, distances),
            ),
        ) <==> forall|t: int|
            0 <= t < world.scores@.len() ==> #[trigger] world.scores@[t] + shot_down_by(
                world,
                distances,
                t,
            ).len() <= u32::MAX,
{
    let killers = killers_of(
        all_hits(ships_of(world.players@, world.live@), world.bullets@, distances),
    );
    assert forall|t: int| #[trigger] shot_down_by(world, distances, t).len() == tally(
        killers,
        t,
    ) by {
        lemma_points_of_all(world, distances, t);
    }
    if points_fit(world.scores@, killers) {
        assert forall|t: int| 0 <= t < world.scores@.len() implies #[trigger] world.scores@[t]
            + shot_down_by(world, distances, t).len() <= u32::MAX by {
            assert(world.scores@[t] + tally(killers, t) <= u32::MAX);
        }
    } else {
        let t = choose|t: int|
            0 <= t < world.scores@.len() && !(#[trigger] world.scores@[t] + tally(killers, t)
                <= u32::MAX);
        assert(shot_down_by(world, distances, t).len() == tally(killers, t));
        assert(world.scores@[t] + shot_down_by(world, distances, t).len() > u32::MAX);
    }
}

proof fn lemma_tally_of_some(teams: Seq<Team>, team: int)
    requires
        tally(teams, team) > 0,
    ensures
        teams.len() > 0,
{
}

/// The scores are told exactly where some bullet is in reach of a ship of another team, and they
/// are told as they are then.
pub proof fn scores_are_told_where_somebody_scores(
    before: World,
    distances: Distances,
    news: Option<UpdateScore>,
    after: World,
)
    requires
        scores_told(before, distances, news, after),
    ensures
        news is Some <==> exists|p: int, b: int|
            0 <= p < before.live@.len() && 0 <= b < before.bullets@.len() && in_reach(
                team_at(before, p),
                before.bullets@[b].shared.owning_team,
                #[trigger] distances.to_bullets@[p]@[b],
            ),
        news matches Some(update) ==> update.scores@ == after.scores@,
{
    let killers = killers_of(
        all_hits(ships_of(before.players@, before.live@), before.bullets@, distances),
    );
    if killers.len() > 0 {
        let team = killers.last().0 as int;
        lemma_points_of_all(before, distances, team);
        assert(tally(killers, team) > 0);
        let pair = shot_down_by(before, distances, team).choose();
        assert(shot_down_by(before, distances, team).contains(pair));
        assert(in_reach(
            team_at(before, pair.0),
            before.bullets@[pair.1].shared.owning_team,
            distances.to_bullets@[pair.0]@[pair.1],
        ));
    }
    if exists|p: int, b: int|
        0 <= p < before.live@.len() && 0 <= b < before.bullets@.len() && in_reach(
            team_at(before, p),
            before.bullets@[b].shared.owning_team,
            #[trigger] distances.to_bullets@[p]@[b],
        ) {
        let (p, b) = choose|p: int, b: int|
            0 <= p < before.live@.len() && 0 <= b < before.bullets@.len() && in_reach(
                team_at(before, p),
                before.bullets@[b].shared.owning_team,
                #[trigger] distances.to_bullets@[p]@[b],
            );
        let team = before.bullets@[b].shared.owning_team.0 as int;
        lemma_points_of_all(before, distances, team);
        assert(shot_down_by(before, distances, team).contains((p, b)));
        lemma_tally_of_some(killers, team);
    }
}

proof fn lemma_pair_members(pair: Seq<HitMessage>, hit: HitMessage)
    requires
        pair.len() == 2,
    ensures
        pair.contains(hit) <==> hit == pair[0] || hit == pair[1],
{
    if pair.contains(hit) {
        let i = choose|i: int| 0 <= i < pair.len() && pair[i] == hit;
        assert(i == 0 || i == 1);
    }
}

/// Whether a hit is to be reported: a ship, for nobody, where it and a ship of another team with
/// another id are in reach of one another, either way; a ship, for a team, where a bullet of that
/// team, which is not the ship's, is in reach of it; and a bullet, for nobody, where it is in
/// reach of a ship of another team.
pub open spec fn is_hit_by_somebody(
    ships: Seq<Player>,
    bullets: Seq<Bullet>,
    distances: Distances,
    hit: HitMessage,
) -> bool {
    match (hit.killer, hit.victim_id) {
        (None, EntityId::Player(i)) => i < ships.len() && exists|j: int|
            {
                &&& 0 <= j < ships.len()
                &&& (#[trigger] ships[j]).shared.entity_id != ships[i as int].shared.entity_id
                &&& {
                    ||| in_reach(
                        ships[i as int].shared.owning_team,
                        ships[j].shared.owning_team,
                        distances.between_players@[i as int]@[j],
                    )
                    ||| in_reach(
                        ships[j].shared.owning_team,
                        ships[i as int].shared.owning_team,
                        distances.between_players@[j]@[i as int],
                    )
                }
            },
        (Some(team), EntityId::Player(i)) => i < ships.len() && exists|b: int|
            {
                &&& 0 <= b < bullets.len()
                &&& (#[trigger] bullets[b]).shared.owning_team == team
                &&& in_reach(
                    ships[i as int].shared.owning_team,
                    team,
                    distances.to_bullets@[i as int]@[b],
                )
            },
        (None, EntityId::Bullet(b)) => b < bullets.len() && exists|p: int|
            {
                &&& 0 <= p < ships.len()
                &&& in_reach(
                    (#[trigger] ships[p]).shared.owning_team,
                    bullets[b as int].shared.owning_team,
                    distances.to_bullets@[p]@[b as int],
                )
            },
        (Some(_), EntityId::Bullet(_)) => false,
    }
}

/// Exactly what is hit is reported.
pub proof fn exactly_what_is_hit_is_reported(
    ships: Seq<Player>,
    bullets: Seq<Bullet>,
    distances: Distances,
    hit: HitMessage,
)
    requires
        ships.len() <= usize::MAX,
        bullets.len() <= usize::MAX,
    ensures
        all_hits(ships, bullets, distances).contains(hit) <==> is_hit_by_somebody(
            ships,
            bullets,
            distances,
            hit,
        ),
{
    let between = distances.between_players@;
    let to_bullets = distances.to_bullets@;
    lemma_ship_hits_members(ships, between, ships.len(), hit);
    lemma_bullet_hits_members(ships, bullets, to_bullets, ships.len(), hit);
    lemma_concat_members(
        ship_hits(ships, between, ships.len()),
        bullet_hits(ships, bullets, to_bullets, ships.len()),
        hit,
    );
    assert forall|a: int, b: int| #[trigger] ships_hit(ships, between, a, b) implies (
    ship_pair(a, b).contains(hit) <==> hit == ship_pair(a, b)[0] || hit == ship_pair(a, b)[1]) by {
        lemma_pair_members(ship_pair(a, b), hit);
    }
    assert forall|p: int, b: int| #[trigger]
        bullet_hits_ship(ships, bullets, to_bullets, p, b) implies ({
        let pair = bullet_pair(p, b, bullets[b].shared.owning_team);
        pair.contains(hit) <==> hit == pair[0] || hit == pair[1]
    }) by {
        lemma_pair_members(bullet_pair(p, b, bullets[b].shared.owning_team), hit);
    }
    if is_hit_by_somebody(ships, bullets, distances, hit) {
        match (hit.killer, hit.victim_id) {
            (None, EntityId::Player(i)) => {
                let j = choose|j: int|
                    {
                        &&& 0 <= j < ships.len()
                        &&& (#[trigger] ships[j]).shared.entity_id
                            != ships[i as int].shared.entity_id
                        &&& {
                            ||| in_reach(
                                ships[i as int].shared.owning_team,
                                ships[j].shared.owning_team,
                                distances.between_players@[i as int]@[j],
                            )
                            ||| in_reach(
                                ships[j].shared.owning_team,
                                ships[i as int].shared.owning_team,
                                distances.between_players@[j]@[i as int],
                            )
                        }
                    };
                assert(ships_hit(ships, between, i as int, j) || ships_hit(
                    ships,
                    between,
                    j,
                    i as int,
                ));
            },
            (Some(team), EntityId::Player(i)) => {
                let b = choose|b: int|
                    {
                        &&& 0 <= b < bullets.len()
                        &&& (#[trigger] bullets[b]).shared.owning_team == team
                        &&& in_reach(
                            ships[i as int].shared.owning_team,
                            team,
                            distances.to_bullets@[i as int]@[b],
                        )
                    };
                assert(bullet_hits_ship(ships, bullets, to_bullets, i as int, b));
            },
            (None, EntityId::Bullet(b)) => {
                let p = choose|p: int|
                    {
                        &&& 0 <= p < ships.len()
                        &&& in_reach(
                            (#[trigger] ships[p]).shared.owning_team,
                            bullets[b as int].shared.owning_team,
                            distances.to_bullets@[p]@[b as int],
                        )
                    };
                assert(bullet_hits_ship(ships, bullets, to_bullets, p, b as int));
            },
            (Some(_), EntityId::Bullet(_)) => {},
        }
    }
    if ship_hits(ships, between, ships.len()).contains(hit) {
        let (a, b) = choose|a: int, b: int|
            0 <= a < ships.len() && 0 <= b < ships.len() && #[trigger] ships_hit(
                ships,
                between,
                a,
                b,
            ) && ship_pair(a, b).contains(hit);
        lemma_pair_members(ship_pair(a, b), hit);
        assert(ships[a].shared.entity_id != ships[b].shared.entity_id);
    }
    if bullet_hits(ships, bullets, to_bullets, ships.len()).contains(hit) {
        let (p, b) = choose|p: int, b: int|
            0 <= p < ships.len() && 0 <= b < bullets.len() && #[trigger] bullet_hits_ship(
                ships,
                bullets,
                to_bullets,
                p,
                b,
            ) && bullet_pair(p, b, bullets[b].shared.owning_team).contains(hit);
        lemma_pair_members(bullet_pair(p, b, bullets[b].shared.owning_team), hit);
        assert(bullets[b].shared.owning_team.0 != ships[p].shared.owning_team.0);
    }
}

proof fn lemma_who_is_hit(before: World, distances: Distances)
    requires
        before.well_formed(),
        before.live@.len() <= usize::MAX,
        before.bullets@.len() <= usize::MAX,
    ensures
        ({
            let ships = ships_of(before.players@, before.live@);
            let victims = distinct(victims_of(all_hits(ships, before.bullets@, distances)));
            &&& forall|i: int|
                0 <= i < before.live@.len() ==> (#[trigger] victims.contains(
                    EntityId::Player(i as usize),
                ) <==> ship_is_hit(before, distances, i))
            &&& forall|b: int|
                0 <= b < before.bullets@.len() ==> (#[trigger] victims.contains(
                    EntityId::Bullet(b as usize),
                ) <==> bullet_is_hit(before, distances, b))
        }),
{
    let ships = ships_of(before.players@, before.live@);
    let hits = all_hits(ships, before.bullets@, distances);
    let victims = distinct(victims_of(hits));
    let between = distances.between_players@;
    let to_bullets = distances.to_bullets@;
    each_victim_dies_once(victims_of(hits));
    live_players_are_known(before.players@, before.live@, before.spawning@, before.dead@);
    assert forall|a: int, b: int|
        0 <= a < ships.len() && 0 <= b < ships.len() implies #[trigger] ships_hit(
        ships,
        between,
        a,
        b,
    ) == in_reach(team_at(before, a), team_at(before, b), between[a]@[b]) by {
        assert(before.players@.contains_key(before.live@[a]));
        assert(before.players@.contains_key(before.live@[b]));
        assert(a != b ==> before.live@[a] != before.live@[b]);
    }
    assert forall|p: int, b: int|
        0 <= p < ships.len() && 0 <= b < before.bullets@.len() implies #[trigger] bullet_hits_ship(
        ships,
        before.bullets@,
        to_bullets,
        p,
        b,
    ) == in_reach(
        team_at(before, p),
        before.bullets@[b].shared.owning_team,
        to_bullets[p]@[b],
    ) by {}
    assert forall|i: int| 0 <= i < before.live@.len() implies (#[trigger] victims.contains(
        EntityId::Player(i as usize),
    ) <==> ship_is_hit(before, distances, i)) by {
        ship_dies_exactly_where_touched(ships, before.bullets@, distances, i);
        if exists|b: int| 0 <= b < ships.len() && ships_hit(ships, between, i, b) {
            let b = choose|b: int| 0 <= b < ships.len() && ships_hit(ships, between, i, b);
            assert(in_reach(
                team_at(before, i),
                team_at(before, b),
                distances.between_players@[i]@[b],
            ));
        }
        if exists|a: int| 0 <= a < ships.len() && ships_hit(ships, between, a, i) {
            let a = choose|a: int| 0 <= a < ships.len() && ships_hit(ships, between, a, i);
            assert(in_reach(
                team_at(before, a),
                team_at(before, i),
                distances.between_players@[a]@[i],
            ));
        }
        if exists|b: int|
            0 <= b < before.bullets@.len() && bullet_hits_ship(
                ships,
                before.bullets@,
                to_bullets,
                i,
                b,
            ) {
            let b = choose|b: int|
                0 <= b < before.bullets@.len() && bullet_hits_ship(
                    ships,
                    before.bullets@,
                    to_bullets,
                    i,
                    b,
                );
            assert(in_reach(
                team_at(before, i),
                before.bullets@[b].shared.owning_team,
                distances.to_bullets@[i]@[b],
            ));
        }
        if exists|j: int|
            0 <= j < before.live@.len() && in_reach(
                team_at(before, i),
                team_at(before, j),
                #[trigger] distances.between_players@[i]@[j],
            ) {
            let j = choose|j: int|
                0 <= j < before.live@.len() && in_reach(
                    team_at(before, i),
                    team_at(before, j),
                    #[trigger] distances.between_players@[i]@[j],
                );
            assert(ships_hit(ships, between, i, j));
        }
        if exists|j: int|
            0 <= j < before.live@.len() && in_reach(
                team_at(before, j),
                team_at(before, i),
                #[trigger] distances.between_players@[j]@[i],
            ) {
            let j = choose|j: int|
                0 <= j < before.live@.len() && in_reach(
                    team_at(before, j),
                    team_at(before, i),
                    #[trigger] distances.between_players@[j]@[i],
                );
            assert(ships_hit(ships, between, j, i));
        }
        if exists|b: int|
            0 <= b < before.bullets@.len() && in_reach(
                team_at(before, i),
                before.bullets@[b].shared.owning_team,
                #[trigger] distances.to_bullets@[i]@[b],
            ) {
            let b = choose|b: int|
                0 <= b < before.bullets@.len() && in_reach(
                    team_at(before, i),
                    before.bullets@[b].shared.owning_team,
                    #[trigger] distances.to_bullets@[i]@[b],
                );
            assert(bullet_hits_ship(ships, before.bullets@, to_bullets, i, b));
        }
    }
    assert forall|b: int| 0 <= b < before.bullets@.len() implies (#[trigger] victims.contains(
        EntityId::Bullet(b as usize),
    ) <==> bullet_is_hit(before, distances, b)) by {
        bullet_dies_exactly_where_it_hits(ships, before.bullets@, distances, b);
        if exists|p: int|
            0 <= p < ships.len() && bullet_hits_ship(ships, before.bullets@, to_bullets, p, b) {
            let p = choose|p: int|
                0 <= p < ships.len() && bullet_hits_ship(ships, before.bullets@, to_bullets, p, b);
            assert(in_reach(
                team_at(before, p),
                before.bullets@[b].shared.owning_team,
                distances.to_bullets@[p]@[b],
            ));
        }
        if bullet_is_hit(before, distances, b) {
            let p = choose|p: int|
                0 <= p < before.live@.len() && in_reach(
                    team_at(before, p),
                    before.bullets@[b].shared.owning_team,
                    #[trigger] distances.to_bullets@[p]@[b],
                );
            assert(bullet_hits_ship(ships, before.bullets@, to_bullets, p, b));
        }
    }
}

/// For each live ship, whether it is not hit.
pub open spec fn unhurt_ships(world: World, distances: Distances) -> Seq<bool> {
    Seq::new(world.live@.len(), |i: int| !ship_is_hit(world, distances, i))
}

/// For each bullet, whether it is not hit.
pub open spec fn unhurt_bullets(world: World, distances: Distances) -> Seq<bool> {
    Seq::new(world.bullets@.len(), |b: int| !bullet_is_hit(world, distances, b))
}

/// Exactly what is hit leaves the field: the ships and bullets that are not hit stay, in their
/// order, and nothing happens to them. The players, the line and the news stay as they are.
pub proof fn exactly_what_is_hit_leaves(
    before: World,
    distances: Distances,
    now: Double,
    respawn_at: Double,
    after: World,
)
    requires
        before.well_formed(),
        before.live@.len() <= usize::MAX,
        before.bullets@.len() <= usize::MAX,
        fought(before, distances, now, respawn_at, after),
    ensures
        exists|places: Seq<int>|
            {
                &&& are_the_chosen(places, unhurt_ships(before, distances))
                &&& after.live@ == #[trigger] elements_at(before.live@, places)
            },
        exists|places: Seq<int>|
            {
                &&& are_the_chosen(places, unhurt_bullets(before, distances))
                &&& after.bullets@ == #[trigger] elements_at(before.bullets@, places)
            },
        after.players@ == before.players@,
        after.spawning@ == before.spawning@,
        after.new_objects@ == before.new_objects@,
        after.entity_ids.0 == before.entity_ids.0,
        after.client_ids.0 == before.client_ids.0,
        after.num_teams == before.num_teams,
{
    lemma_who_is_hit(before, distances);
    let ships = ships_of(before.players@, before.live@);
    let victims = distinct(victims_of(all_hits(ships, before.bullets@, distances)));
    let keep = unhurt_ships(before, distances);
    assert forall|i: int| 0 <= i < before.live@.len() implies surviving_ships(
        victims,
        before.live@.len(),
    )[i] == keep[i] by {
        assert(victims.contains(EntityId::Player(i as usize)) <==> ship_is_hit(
            before,
            distances,
            i,
        ));
    }
    assert(surviving_ships(victims, before.live@.len()) =~= keep);
    lemma_chosen_places(keep);
    lemma_kept_is_chosen(before.live@, keep);
    assert(after.live@ == elements_at(before.live@, chosen_places(keep)));
    let keep_bullets = unhurt_bullets(before, distances);
    assert forall|b: int| 0 <= b < before.bullets@.len() implies surviving_bullets(
        victims,
        before.bullets@.len(),
    )[b] == keep_bullets[b] by {
        assert(victims.contains(EntityId::Bullet(b as usize)) <==> bullet_is_hit(
            before,
            distances,
            b,
        ));
    }
    assert(surviving_bullets(victims, before.bullets@.len()) =~= keep_bullets);
    lemma_chosen_places(keep_bullets);
    lemma_kept_is_chosen(before.bullets@, keep_bullets);
    assert(after.bullets@ == elements_at(before.bullets@, chosen_places(keep_bullets)));
}

/// Exactly the players whose ship is hit join the dead, with the time of the tick and the time
/// of the next ship; those who were dead stay so. Where nobody is hit, the list stays as it is.
pub proof fn exactly_those_hit_are_dead(
    before: World,
    distances: Distances,
    now: Double,
    respawn_at: Double,
    after: World,
)
    requires
        before.well_formed(),
        before.live@.len() <= usize::MAX,
        before.bullets@.len() <= usize::MAX,
        fought(before, distances, now, respawn_at, after),
    ensures
        after.dead@.len() + after.live@.len() == before.dead@.len() + before.live@.len(),
        forall|d: DeadPlayer| #[trigger]
            after.dead@.contains(d) <==> {
                ||| before.dead@.contains(d)
                ||| d.since == now && d.respawn_at == respawn_at && exists|i: int|
                    {
                        &&& 0 <= i < before.live@.len()
                        &&& #[trigger] before.live@[i] == d.player
                        &&& ship_is_hit(before, distances, i)
                    }
            },
        (forall|i: int| 0 <= i < before.live@.len() ==> !(#[trigger] ship_is_hit(before, distances, i)))
            ==> after.dead@ == before.dead@,
{
    broadcast use vstd::seq_lib::group_to_multiset_ensures;

    lemma_who_is_hit(before, distances);
    let ships = ships_of(before.players@, before.live@);
    let victims = distinct(victims_of(all_hits(ships, before.bullets@, distances)));
    let keep = surviving_ships(victims, before.live@.len());
    let fallen = removed(before.live@, keep);
    let fresh = newly_dead(fallen, now, respawn_at);
    let all = before.dead@ + fresh;
    crate::retain::exactly_the_rejected_leave(before.live@, keep);
    removed_were_rejected(before.live@, keep);
    ordering_loses_nobody(all);
    if fallen.len() == 0 {
        assert(all =~= before.dead@);
    }
    assert forall|d: DeadPlayer| #[trigger] after.dead@.contains(d) <==> all.contains(d) by {
        assert(after.dead@.contains(d) <==> after.dead@.to_multiset().count(d) > 0);
        assert(all.contains(d) <==> all.to_multiset().count(d) > 0);
    }
    assert forall|d: DeadPlayer| #[trigger] after.dead@.contains(d) <==> {
        ||| before.dead@.contains(d)
        ||| d.since == now && d.respawn_at == respawn_at && exists|i: int|
            {
                &&& 0 <= i < before.live@.len()
                &&& #[trigger] before.live@[i] == d.player
                &&& ship_is_hit(before, distances, i)
            }
    } by {
        if all.contains(d) {
            let k = choose|k: int| 0 <= k < all.len() && all[k] == d;
            if k < before.dead@.len() {
                assert(before.dead@[k] == d);
            } else {
                let m = k - before.dead@.len();
                assert(fresh[m] == d);
                assert(d.player == fallen[m]);
                let i = choose|i: int|
                    0 <= i < before.live@.len() && !keep[i] && before.live@[i] == fallen[m];
                assert(victims.contains(EntityId::Player(i as usize)));
                assert(before.live@[i] == d.player && ship_is_hit(before, distances, i));
            }
        }
        if before.dead@.contains(d) {
            let k = choose|k: int| 0 <= k < before.dead@.len() && before.dead@[k] == d;
            assert(all[k] == d);
        }
        if d.since == now && d.respawn_at == respawn_at && exists|i: int|
            {
                &&& 0 <= i < before.live@.len()
                &&& #[trigger] before.live@[i] == d.player
                &&& ship_is_hit(before, distances, i)
            } {
            let i = choose|i: int|
                {
                    &&& 0 <= i < before.live@.len()
                    &&& #[trigger] before.live@[i] == d.player
                    &&& ship_is_hit(before, distances, i)
                };
            assert(victims.contains(EntityId::Player(i as usize)));
            crate::history::lemma_accepted_stay(before.live@, keep, i);
            let m = choose|m: int| 0 <= m < fallen.len() && fallen[m] == before.live@[i];
            assert(fresh[m] == d);
            assert(all[before.dead@.len() + m] == d);
        }
    }
    if forall|i: int|
        0 <= i < before.live@.len() ==> !(#[trigger] ship_is_hit(before, distances, i)) {
        assert forall|i: int| 0 <= i < keep.len() implies keep[i] by {
            assert(!ship_is_hit(before, distances, i));
            assert(!victims.contains(EntityId::Player(i as usize)));
        }
    }
}

/// Where a ship is hit, the dead are in order of the time of death afterwards, as long as all
/// those times are numbers.
pub proof fn the_dead_are_in_order(
    before: World,
    distances: Distances,
    now: Double,
    respawn_at: Double,
    after: World,
)
    requires
        before.well_formed(),
        before.live@.len() <= usize::MAX,
        before.bullets@.len() <= usize::MAX,
        fought(before, distances, now, respawn_at, after),
        exists|i: int| 0 <= i < before.live@.len() && #[trigger] ship_is_hit(before, distances, i),
        !now.is_nan(),
        forall|k: int| 0 <= k < before.dead@.len() ==> !(#[trigger] before.dead@[k]).since.is_nan(),
    ensures
        forall|k: int, l: int|
            0 <= k < l < after.dead@.len() ==> !(#[trigger] after.dead@[l]).since.below(
                (#[trigger] after.dead@[k]).since,
            ),
{
    lemma_who_is_hit(before, distances);
    let ships = ships_of(before.players@, before.live@);
    let victims = distinct(victims_of(all_hits(ships, before.bullets@, distances)));
    let keep = surviving_ships(victims, before.live@.len());
    let fallen = removed(before.live@, keep);
    let i = choose|i: int|
        0 <= i < before.live@.len() && #[trigger] ship_is_hit(before, distances, i);
    assert(victims.contains(EntityId::Player(i as usize)));
    crate::history::lemma_accepted_stay(before.live@, keep, i);
    let all = before.dead@ + newly_dead(fallen, now, respawn_at);
    assert forall|k: int| 0 <= k < all.len() implies !(#[trigger] all[k]).since.is_nan() by {
        if k < before.dead@.len() {
            assert(all[k] == before.dead@[k]);
        }
    }
    crate::graveyard::ordering_orders(all);
}

/// Exactly the ids of what is hit are told to be gone, each once, behind those told already.
pub proof fn exactly_what_is_hit_is_told_gone(
    before: World,
    distances: Distances,
    now: Double,
    respawn_at: Double,
    after: World,
)
    requires
        before.well_formed(),
        before.live@.len() <= usize::MAX,
        before.bullets@.len() <= usize::MAX,
        fought(before, distances, now, respawn_at, after),
    ensures
        ({
            let gone = after.deleted@.skip(before.deleted@.len() as int);
            &&& after.deleted@.take(before.deleted@.len() as int) == before.deleted@
            &&& after.deleted@.len() >= before.deleted@.len()
            &&& gone.no_duplicates()
            &&& forall|i: int|
                0 <= i < before.live@.len() ==> (ship_is_hit(before, distances, i) <==> gone.contains(
                    before.players@[#[trigger] before.live@[i]].shared.entity_id,
                ))
            &&& forall|b: int|
                0 <= b < before.bullets@.len() ==> (bullet_is_hit(before, distances, b)
                    <==> gone.contains((#[trigger] before.bullets@[b]).shared.entity_id))
        }),
{
    lemma_who_is_hit(before, distances);
    live_players_are_known(before.players@, before.live@, before.spawning@, before.dead@);
    let ships = ships_of(before.players@, before.live@);
    let hits = all_hits(ships, before.bullets@, distances);
    let victims = distinct(victims_of(hits));
    let gone = ids_of(ships, before.bullets@, victims);
    each_victim_dies_once(victims_of(hits));
    assert(after.deleted@.take(before.deleted@.len() as int) =~= before.deleted@);
    assert(after.deleted@.skip(before.deleted@.len() as int) =~= gone);
    assert forall|k: int| 0 <= k < victims.len() implies match #[trigger] victims[k] {
        EntityId::Player(i) => i < before.live@.len(),
        EntityId::Bullet(b) => b < before.bullets@.len(),
    } by {
        assert(victims.contains(victims[k]));
        victims_are_on_the_field(ships, before.bullets@, distances, victims[k]);
    }
    assert forall|k: int, l: int| 0 <= k < gone.len() && 0 <= l < gone.len() && k != l implies gone[k]
        != gone[l] by {
        assert(victims[k] != victims[l]);
        lemma_different_ids(before, victims[k], victims[l]);
    }
    assert forall|i: int| 0 <= i < before.live@.len() implies (ship_is_hit(before, distances, i)
        <==> gone.contains(before.players@[#[trigger] before.live@[i]].shared.entity_id)) by {
        let e = EntityId::Player(i as usize);
        lemma_id_is_listed(before, victims, e);
        assert(victims.contains(e) <==> ship_is_hit(before, distances, i));
    }
    assert forall|b: int| 0 <= b < before.bullets@.len() implies (bullet_is_hit(
        before,
        distances,
        b,
    ) <==> gone.contains((#[trigger] before.bullets@[b]).shared.entity_id)) by {
        let e = EntityId::Bullet(b as usize);
        lemma_id_is_listed(before, victims, e);
        assert(victims.contains(e) <==> bullet_is_hit(before, distances, b));
    }
}

spec fn is_there(world: World, e: EntityId) -> bool {
    match e {
        EntityId::Player(i) => i < world.live@.len(),
        EntityId::Bullet(b) => b < world.bullets@.len(),
    }
}

proof fn lemma_different_ids(world: World, one: EntityId, other: EntityId)
    requires
        world.well_formed(),
        is_there(world, one),
        is_there(world, other),
        one != other,
    ensures
        entity_id_of(ships_of(world.players@, world.live@), world.bullets@, one) != entity_id_of(
            ships_of(world.players@, world.live@),
            world.bullets@,
            other,
        ),
{
    live_players_are_known(world.players@, world.live@, world.spawning@, world.dead@);
    let bullets = world.bullets@;
    match (one, other) {
        (EntityId::Player(i), EntityId::Player(j)) => {
            assert(world.players@.contains_key(world.live@[i as int]));
            assert(world.players@.contains_key(world.live@[j as int]));
        },
        (EntityId::Player(i), EntityId::Bullet(b)) => {
            assert(world.players@.contains_key(world.live@[i as int]));
            assert(world.players@[world.live@[i as int]].shared.entity_id
                != bullets[b as int].shared.entity_id);
        },
        (EntityId::Bullet(b), EntityId::Player(i)) => {
            assert(world.players@.contains_key(world.live@[i as int]));
            assert(world.players@[world.live@[i as int]].shared.entity_id
                != bullets[b as int].shared.entity_id);
        },
        (EntityId::Bullet(b), EntityId::Bullet(c)) => {
            if b < c {
                assert(bullets[b as int].shared.entity_id != bullets[c as int].shared.entity_id);
            } else {
                assert(bullets[c as int].shared.entity_id != bullets[b as int].shared.entity_id);
            }
        },
    }
}

proof fn lemma_id_is_listed(world: World, listed: Seq<EntityId>, e: EntityId)
    requires
        world.well_formed(),
        is_there(world, e),
        forall|k: int|
            0 <= k < listed.len() ==> match #[trigger] listed[k] {
                EntityId::Player(i) => i < world.live@.len(),
                EntityId::Bullet(b) => b < world.bullets@.len(),
            },
    ensures
        ({
            let ships = ships_of(world.players@, world.live@);
            ids_of(ships, world.bullets@, listed).contains(entity_id_of(ships, world.bullets@, e))
                <==> listed.contains(e)
        }),
{
    let ships = ships_of(world.players@, world.live@);
    let ids = ids_of(ships, world.bullets@, listed);
    let id = entity_id_of(ships, world.bullets@, e);
    if listed.contains(e) {
        let k = choose|k: int| 0 <= k < listed.len() && listed[k] == e;
        assert(ids[k] == id);
    }
    if ids.contains(id) {
        let k = choose|k: int| 0 <= k < ids.len() && ids[k] == id;
        if listed[k] != e {
            lemma_different_ids(world, listed[k], e);
        }
    }
}

} // verus!
