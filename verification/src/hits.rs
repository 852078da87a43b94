//! Who hit whom, what dies of it, and who scores.
use crate::double::Double;
use crate::entity::{touches, Bullet, Entity, EntityId, Player, Team};
use crate::entity::PLAYER_RADIUS_SQUARED;
use crate::lists::Scores;
use crate::unzip::{filter_unzip, firsts, seconds, unzipping_keeps_exactly_what_is_there};
use vstd::prelude::*;

verus! {

/// One side of a hit: what is hit, and the team that scores for it.
#[derive(Clone, Copy, Debug, PartialEq, Eq)]
pub struct HitMessage {
    pub killer: Option<Team>,
    pub victim_id: EntityId,
}

/// The squared distances between the live ships, and from the live ships to the bullets.
pub struct Distances {
    /// From each ship to each ship.
    pub between_players: Vec<Vec<Double>>,
    /// From each ship to each bullet.
    pub to_bullets: Vec<Vec<Double>>,
}

/// Whether a table has the given number of rows and columns.
pub open spec fn is_table(table: Seq<Vec<Double>>, rows: nat, columns: nat) -> bool {
    &&& table.len() == rows
    &&& forall|i: int| 0 <= i < rows ==> (#[trigger] table[i])@.len() == columns
}

impl Distances {
    /// Whether the distances are those of so many ships and so many bullets.
    pub open spec fn fits(self, ships: nat, bullets: nat) -> bool {
        &&& is_table(self.between_players@, ships, ships)
        &&& is_table(self.to_bullets@, ships, bullets)
    }
}

/// Whether two different ships touch.
pub open spec fn ships_hit(
    ships: Seq<Player>,
    between: Seq<Vec<Double>>,
    a: int,
    b: int,
) -> bool {
    &&& ships[a].shared.entity_id != ships[b].shared.entity_id
    &&& touches(
        ships[a].shared,
        Double { bits: PLAYER_RADIUS_SQUARED },
        ships[b].shared,
        between[a]@[b],
    )
}

/// Whether a ship touches a bullet.
pub open spec fn bullet_hits_ship(
    ships: Seq<Player>,
    bullets: Seq<Bullet>,
    to_bullets: Seq<Vec<Double>>,
    p: int,
    b: int,
) -> bool {
    touches(
        ships[p].shared,
        Double { bits: PLAYER_RADIUS_SQUARED },
        bullets[b].shared,
        to_bullets[p]@[b],
    )
}

/// Both ships die when two ships touch; nobody scores.
pub open spec fn ship_pair(a: int, b: int) -> Seq<HitMessage> {
    seq![
        HitMessage { killer: None, victim_id: EntityId::Player(a as usize) },
        HitMessage { killer: None, victim_id: EntityId::Player(b as usize) },
    ]
}

/// Ship and bullet die when they touch; the team of the bullet scores.
pub open spec fn bullet_pair(p: int, b: int, team: Team) -> Seq<HitMessage> {
    seq![
        HitMessage { killer: Some(team), victim_id: EntityId::Player(p as usize) },
        HitMessage { killer: None, victim_id: EntityId::Bullet(b as usize) },
    ]
}

/// The hits of one ship with the first `columns` ships.
pub open spec fn ship_row(
    ships: Seq<Player>,
    between: Seq<Vec<Double>>,
    a: int,
    columns: nat,
) -> Seq<HitMessage>
    decreases columns,
{
    if columns == 0 {
        Seq::empty()
    } else {
        let before = ship_row(ships, between, a, (columns - 1) as nat);
        if ships_hit(ships, between, a, columns - 1) {
            before + ship_pair(a, columns - 1)
        } else {
            before
        }
    }
}

/// The hits of the first `rows` ships with all ships.
pub open spec fn ship_hits(
    ships: Seq<Player>,
    between: Seq<Vec<Double>>,
    rows: nat,
) -> Seq<HitMessage>
    decreases rows,
{
    if rows == 0 {
        Seq::empty()
    } else {
        ship_hits(ships, between, (rows - 1) as nat) + ship_row(
            ships,
            between,
            rows - 1,
            ships.len(),
        )
    }
}

/// The hits of one ship with the first `columns` bullets.
pub open spec fn bullet_row(
    ships: Seq<Player>,
    bullets: Seq<Bullet>,
    to_bullets: Seq<Vec<Double>>,
    p: int,
    columns: nat,
) -> Seq<HitMessage>
    decreases columns,
{
    if columns == 0 {
        Seq::empty()
    } else {
        let before = bullet_row(ships, bullets, to_bullets, p, (columns - 1) as nat);
        if bullet_hits_ship(ships, bullets, to_bullets, p, columns - 1) {
            before + bullet_pair(p, columns - 1, bullets[columns - 1].shared.owning_team)
        } else {
            before
        }
    }
}

/// The hits of the first `rows` ships with all bullets.
pub open spec fn bullet_hits(
    ships: Seq<Player>,
    bullets: Seq<Bullet>,
    to_bullets: Seq<Vec<Double>>,
    rows: nat,
) -> Seq<HitMessage>
    decreases rows,
{
    if rows == 0 {
        Seq::empty()
    } else {
        bullet_hits(ships, bullets, to_bullets, (rows - 1) as nat) + bullet_row(
            ships,
            bullets,
            to_bullets,
            rows - 1,
            bullets.len(),
        )
    }
}

/// All hits: those between ships first, then those of bullets.
pub open spec fn all_hits(
    ships: Seq<Player>,
    bullets: Seq<Bullet>,
    distances: Distances,
) -> Seq<HitMessage> {
    ship_hits(ships, distances.between_players@, ships.len()) + bullet_hits(
        ships,
        bullets,
        distances.to_bullets@,
        ships.len(),
    )
}

fn find_ship_hits(ships: &Vec<Player>, between: &Vec<Vec<Double>>) -> (hits: Vec<HitMessage>)
    requires
        is_table(between@, ships@.len(), ships@.len()),
    ensures
        hits@ == ship_hits(ships@, between@, ships@.len()),
{
    let mut hits: Vec<HitMessage> = Vec::new();
    for ai in 0..ships.len()
        invariant
            is_table(between@, ships@.len(), ships@.len()),
            hits@ == ship_hits(ships@, between@, ai as nat),
    {
        let ghost before = hits@;
        let a = &ships[ai];
        for bi in 0..ships.len()
            invariant
                is_table(between@, ships@.len(), ships@.len()),
                ai < ships@.len(),
                *a == ships@[ai as int],
                hits@ == before + ship_row(ships@, between@, ai as int, bi as nat),
        {
            let b = &ships[bi];
            assert(between@[ai as int]@.len() == ships@.len());
            if a.shared.entity_id != b.shared.entity_id && a.collides_with(
                &b.shared,
                between[ai][bi],
            ) {
                hits.push(HitMessage { killer: None, victim_id: EntityId::Player(ai) });
                hits.push(HitMessage { killer: None, victim_id: EntityId::Player(bi) });
            }
            assert(hits@ =~= before + ship_row(ships@, between@, ai as int, (bi + 1) as nat));
        }
    }
    hits
}

fn find_bullet_hits(
    ships: &Vec<Player>,
    bullets: &Vec<Bullet>,
    to_bullets: &Vec<Vec<Double>>,
) -> (hits: Vec<HitMessage>)
    requires
        is_table(to_bullets@, ships@.len(), bullets@.len()),
    ensures
        hits@ == bullet_hits(ships@, bullets@, to_bullets@, ships@.len()),
{
    let mut hits: Vec<HitMessage> = Vec::new();
    for pi in 0..ships.len()
        invariant
            is_table(to_bullets@, ships@.len(), bullets@.len()),
            hits@ == bullet_hits(ships@, bullets@, to_bullets@, pi as nat),
    {
        let ghost before = hits@;
        let p = &ships[pi];
        for bi in 0..bullets.len()
            invariant
                is_table(to_bullets@, ships@.len(), bullets@.len()),
                pi < ships@.len(),
                *p == ships@[pi as int],
                hits@ == before + bullet_row(ships@, bullets@, to_bullets@, pi as int, bi as nat),
        {
            let b = &bullets[bi];
            assert(to_bullets@[pi as int]@.len() == bullets@.len());
            if p.collides_with(&b.shared, to_bullets[pi][bi]) {
                hits.push(
                    HitMessage {
                        killer: Some(b.shared.owning_team),
                        victim_id: EntityId::Player(pi),
                    },
                );
                hits.push(HitMessage { killer: None, victim_id: EntityId::Bullet(bi) });
            }
            assert(hits@ =~= before + bullet_row(
                ships@,
                bullets@,
                to_bullets@,
                pi as int,
                (bi + 1) as nat,
            ));
        }
    }
    hits
}

/// Finds all hits among the live ships, and between them and the bullets.
pub fn find_hits(ships: &Vec<Player>, bullets: &Vec<Bullet>, distances: &Distances) -> (hits: Vec<
    HitMessage,
>)
    requires
        distances.fits(ships@.len(), bullets@.len()),
    ensures
        hits@ == all_hits(ships@, bullets@, *distances),
{
    let mut hits = find_ship_hits(ships, &distances.between_players);
    let mut of_bullets = find_bullet_hits(ships, bullets, &distances.to_bullets);
    hits.append(&mut of_bullets);
    hits
}

/// A hit as the optional parts that scoring and dying are made of.
pub open spec fn hit_parts(hit: HitMessage) -> (Option<Team>, Option<EntityId>) {
    (hit.killer, Some(hit.victim_id))
}

/// The teams that score, once for each of their hits.
pub open spec fn killers_of(hits: Seq<HitMessage>) -> Seq<Team> {
    firsts(hits.map_values(|hit: HitMessage| hit_parts(hit)))
}

/// What is hit, once for each time it is hit.
pub open spec fn victims_of(hits: Seq<HitMessage>) -> Seq<EntityId> {
    seconds(hits.map_values(|hit: HitMessage| hit_parts(hit)))
}

/// The different elements of a list, in the order of their first occurrence.
pub open spec fn distinct(list: Seq<EntityId>) -> Seq<EntityId>
    decreases list.len(),
{
    if list.len() == 0 {
        Seq::empty()
    } else {
        let before = distinct(list.drop_last());
        if before.contains(list.last()) {
            before
        } else {
            before.push(list.last())
        }
    }
}

/// Whether an entity is in a list.
pub fn is_among(list: &Vec<EntityId>, wanted: EntityId) -> (found: bool)
    ensures
        found == list@.contains(wanted),
{
    for i in 0..list.len()
        invariant
            forall|j: int| 0 <= j < i ==> list@[j] != wanted,
    {
        if list[i] == wanted {
            return true;
        }
    }
    false
}

fn keep_distinct(list: &Vec<EntityId>) -> (unique: Vec<EntityId>)
    ensures
        unique@ == distinct(list@),
{
    let mut unique: Vec<EntityId> = Vec::new();
    assert(list@.take(0) =~= Seq::empty());
    for i in 0..list.len()
        invariant
            unique@ == distinct(list@.take(i as int)),
    {
        assert(list@.take(i + 1).drop_last() =~= list@.take(i as int));
        assert(list@.take(i + 1).last() == list@[i as int]);
        if !is_among(&unique, list[i]) {
            unique.push(list[i]);
        }
    }
    assert(list@.take(list@.len() as int) =~= list@);
    unique
}

/// Splits hits into the teams that score and the entities that die. An entity that is hit more
/// than once dies once.
pub fn settle(hits: &Vec<HitMessage>) -> (settled: (Vec<Team>, Vec<EntityId>))
    ensures
        settled.0@ == killers_of(hits@),
        settled.1@ == distinct(victims_of(hits@)),
{
    let mut pairs: Vec<(Option<Team>, Option<EntityId>)> = Vec::new();
    for i in 0..hits.len()
        invariant
            pairs@ == hits@.take(i as int).map_values(|hit: HitMessage| hit_parts(hit)),
    {
        let HitMessage { killer, victim_id } = hits[i];
        pairs.push((killer, Some(victim_id)));
        assert(pairs@ =~= hits@.take(i + 1).map_values(|hit: HitMessage| hit_parts(hit)));
    }
    assert(hits@.take(hits@.len() as int) =~= hits@);
    let (killing_teams, victims) = filter_unzip(pairs);
    (killing_teams, keep_distinct(&victims))
}

/// How often a team is in a list.
pub open spec fn tally(teams: Seq<Team>, team: int) -> nat
    decreases teams.len(),
{
    if teams.len() == 0 {
        0
    } else {
        tally(teams.drop_last(), team) + if teams.last().0 == team {
            1nat
        } else {
            0nat
        }
    }
}

/// Whether the kills can be added to the scores: each killer has a score, and no score grows
/// past the largest number.
pub open spec fn scores_have_room(scores: Seq<u32>, killers: Seq<Team>) -> bool {
    &&& forall|i: int| 0 <= i < killers.len() ==> (#[trigger] killers[i]).0 < scores.len()
    &&& forall|t: int|
        0 <= t < scores.len() ==> #[trigger] scores[t] + tally(killers, t) <= u32::MAX
}

/// The scores after the kills: each team has one point more for each of its kills.
pub open spec fn scores_after(scores: Seq<u32>, killers: Seq<Team>) -> Seq<u32> {
    Seq::new(scores.len(), |t: int| (scores[t] + tally(killers, t)) as u32)
}

proof fn lemma_tally_of_prefix(teams: Seq<Team>, n: int, team: int)
    requires
        0 <= n <= teams.len(),
    ensures
        tally(teams.take(n), team) <= tally(teams, team),
    decreases teams.len() - n,
{
    if n < teams.len() {
        lemma_tally_of_prefix(teams, n + 1, team);
        assert(teams.take(n + 1).drop_last() =~= teams.take(n));
    } else {
        assert(teams.take(n) =~= teams);
    }
}

/// Counts how often a team is in a list.
pub fn count_points(killers: &Vec<Team>, team: usize) -> (points: usize)
    ensures
        points == tally(killers@, team as int),
{
    let mut points: usize = 0;
    assert(killers@.take(0) =~= Seq::empty());
    for i in 0..killers.len()
        invariant
            points <= i,
            points == tally(killers@.take(i as int), team as int),
    {
        assert(killers@.take(i + 1).drop_last() =~= killers@.take(i as int));
        assert(killers@.take(i + 1).last() == killers@[i as int]);
        if killers[i].0 as usize == team {
            points = points + 1;
        }
    }
    assert(killers@.take(killers@.len() as int) =~= killers@);
    points
}

/// Gives each killer a point.
pub fn add_scores(scores: &mut Scores, killers: &Vec<Team>)
    requires
        scores_have_room(old(scores)@, killers@),
    ensures
        final(scores)@ == scores_after(old(scores)@, killers@),
{
    let ghost start = scores@;
    assert(killers@.take(0) =~= Seq::empty());
    assert(scores@ =~= scores_after(start, killers@.take(0)));
    for i in 0..killers.len()
        invariant
            scores_have_room(start, killers@),
            scores@ == scores_after(start, killers@.take(i as int)),
    {
        let team: usize = killers[i].0 as usize;
        proof {
            lemma_tally_of_prefix(killers@, i + 1, team as int);
            assert(killers@.take(i + 1).drop_last() =~= killers@.take(i as int));
            assert(killers@.take(i + 1).last() == killers@[i as int]);
            assert(start[team as int] + tally(killers@, team as int) <= u32::MAX);
        }
        let ghost before = scores@;
        let score: u32 = scores.as_slice()[team];
        scores.set(team, score + 1);
        proof {
            assert forall|t: int| 0 <= t < start.len() implies scores@[t] == scores_after(
                start,
                killers@.take(i + 1),
            )[t] by {
                lemma_tally_of_prefix(killers@, i + 1, t);
                lemma_tally_of_prefix(killers@, i as int, t);
                assert(start[t] + tally(killers@, t) <= u32::MAX);
            }
            assert(scores@ =~= scores_after(start, killers@.take(i + 1)));
        }
    }
    assert(killers@.take(killers@.len() as int) =~= killers@);
}

proof fn lemma_ship_row_members(
    ships: Seq<Player>,
    between: Seq<Vec<Double>>,
    a: int,
    columns: nat,
    hit: HitMessage,
)
    ensures
        ship_row(ships, between, a, columns).contains(hit) <==> exists|b: int|
            0 <= b < columns && #[trigger] ships_hit(ships, between, a, b) && ship_pair(
                a,
                b,
            ).contains(hit),
    decreases columns,
{
    if columns > 0 {
        let front = ship_row(ships, between, a, (columns - 1) as nat);
        lemma_ship_row_members(ships, between, a, (columns - 1) as nat, hit);
        let last = columns - 1;
        if ships_hit(ships, between, a, last) {
            lemma_concat_members(front, ship_pair(a, last), hit);
        }
    }
}

pub proof fn lemma_ship_hits_members(
    ships: Seq<Player>,
    between: Seq<Vec<Double>>,
    rows: nat,
    hit: HitMessage,
)
    ensures
        ship_hits(ships, between, rows).contains(hit) <==> exists|a: int, b: int|
            0 <= a < rows && 0 <= b < ships.len() && #[trigger] ships_hit(ships, between, a, b)
                && ship_pair(a, b).contains(hit),
    decreases rows,
{
    if rows > 0 {
        lemma_ship_hits_members(ships, between, (rows - 1) as nat, hit);
        lemma_ship_row_members(ships, between, rows - 1, ships.len(), hit);
        lemma_concat_members(
            ship_hits(ships, between, (rows - 1) as nat),
            ship_row(ships, between, rows - 1, ships.len()),
            hit,
        );
    }
}

proof fn lemma_bullet_row_members(
    ships: Seq<Player>,
    bullets: Seq<Bullet>,
    to_bullets: Seq<Vec<Double>>,
    p: int,
    columns: nat,
    hit: HitMessage,
)
    ensures
        bullet_row(ships, bullets, to_bullets, p, columns).contains(hit) <==> exists|b: int|
            0 <= b < columns && #[trigger] bullet_hits_ship(ships, bullets, to_bullets, p, b)
                && bullet_pair(p, b, bullets[b].shared.owning_team).contains(hit),
    decreases columns,
{
    if columns > 0 {
        let front = bullet_row(ships, bullets, to_bullets, p, (columns - 1) as nat);
        lemma_bullet_row_members(ships, bullets, to_bullets, p, (columns - 1) as nat, hit);
        let last = columns - 1;
        if bullet_hits_ship(ships, bullets, to_bullets, p, last) {
            lemma_concat_members(
                front,
                bullet_pair(p, last, bullets[last].shared.owning_team),
                hit,
            );
        }
    }
}

pub proof fn lemma_bullet_hits_members(
    ships: Seq<Player>,
    bullets: Seq<Bullet>,
    to_bullets: Seq<Vec<Double>>,
    rows: nat,
    hit: HitMessage,
)
    ensures
        bullet_hits(ships, bullets, to_bullets, rows).contains(hit) <==> exists|p: int, b: int|
            0 <= p < rows && 0 <= b < bullets.len() && #[trigger] bullet_hits_ship(
                ships,
                bullets,
                to_bullets,
                p,
                b,
            ) && bullet_pair(p, b, bullets[b].shared.owning_team).contains(hit),
    decreases rows,
{
    if rows > 0 {
        lemma_bullet_hits_members(ships, bullets, to_bullets, (rows - 1) as nat, hit);
        lemma_bullet_row_members(ships, bullets, to_bullets, rows - 1, bullets.len(), hit);
        lemma_concat_members(
            bullet_hits(ships, bullets, to_bullets, (rows - 1) as nat),
            bullet_row(ships, bullets, to_bullets, rows - 1, bullets.len()),
            hit,
        );
    }
}

pub proof fn lemma_concat_members(a: Seq<HitMessage>, b: Seq<HitMessage>, hit: HitMessage)
    ensures
        (a + b).contains(hit) <==> a.contains(hit) || b.contains(hit),
{
    if a.contains(hit) {
        let i = choose|i: int| 0 <= i < a.len() && a[i] == hit;
        assert((a + b)[i] == hit);
    }
    if b.contains(hit) {
        let i = choose|i: int| 0 <= i < b.len() && b[i] == hit;
        assert((a + b)[a.len() + i] == hit);
    }
    if (a + b).contains(hit) {
        let i = choose|i: int| 0 <= i < (a + b).len() && (a + b)[i] == hit;
        if i >= a.len() {
            assert(b[i - a.len()] == hit);
        }
    }
}

proof fn lemma_victim_has_hit(hits: Seq<HitMessage>, victim: EntityId)
    ensures
        victims_of(hits).contains(victim) <==> exists|hit: HitMessage| #[trigger]
            hits.contains(hit) && hit.victim_id == victim,
{
    let parts = hits.map_values(|hit: HitMessage| hit_parts(hit));
    unzipping_keeps_exactly_what_is_there(parts, Team(0), victim);
    if victims_of(hits).contains(victim) {
        let i = choose|i: int| 0 <= i < parts.len() && (#[trigger] parts[i]).1 == Some(victim);
        assert(hits.contains(hits[i]) && hits[i].victim_id == victim);
    }
    if exists|hit: HitMessage| #[trigger] hits.contains(hit) && hit.victim_id == victim {
        let hit = choose|hit: HitMessage| #[trigger] hits.contains(hit) && hit.victim_id == victim;
        let i = choose|i: int| 0 <= i < hits.len() && hits[i] == hit;
        assert(parts[i].1 == Some(victim));
    }
}

proof fn lemma_killer_has_hit(hits: Seq<HitMessage>, team: Team)
    requires
        killers_of(hits).contains(team),
    ensures
        exists|hit: HitMessage| #[trigger] hits.contains(hit) && hit.killer == Some(team),
{
    let parts = hits.map_values(|hit: HitMessage| hit_parts(hit));
    unzipping_keeps_exactly_what_is_there(parts, team, EntityId::Player(0));
    let i = choose|i: int| 0 <= i < parts.len() && (#[trigger] parts[i]).0 == Some(team);
    assert(hits.contains(hits[i]) && hits[i].killer == Some(team));
}

/// Everything that is hit is on the field.
pub proof fn victims_are_on_the_field(
    ships: Seq<Player>,
    bullets: Seq<Bullet>,
    distances: Distances,
    victim: EntityId,
)
    requires
        ships.len() <= usize::MAX,
        bullets.len() <= usize::MAX,
        victims_of(all_hits(ships, bullets, distances)).contains(victim),
    ensures
        match victim {
            EntityId::Player(i) => i < ships.len(),
            EntityId::Bullet(i) => i < bullets.len(),
        },
{
    let between = distances.between_players@;
    let to_bullets = distances.to_bullets@;
    let hits = all_hits(ships, bullets, distances);
    lemma_victim_has_hit(hits, victim);
    let hit = choose|hit: HitMessage| #[trigger] hits.contains(hit) && hit.victim_id == victim;
    lemma_concat_members(
        ship_hits(ships, between, ships.len()),
        bullet_hits(ships, bullets, to_bullets, ships.len()),
        hit,
    );
    lemma_ship_hits_members(ships, between, ships.len(), hit);
    lemma_bullet_hits_members(ships, bullets, to_bullets, ships.len(), hit);
}

/// A live ship dies exactly where it touches another ship, another ship touches it, or it
/// touches a bullet.
pub proof fn ship_dies_exactly_where_touched(
    ships: Seq<Player>,
    bullets: Seq<Bullet>,
    distances: Distances,
    i: int,
)
    requires
        0 <= i < ships.len() <= usize::MAX,
        bullets.len() <= usize::MAX,
    ensures
        victims_of(all_hits(ships, bullets, distances)).contains(EntityId::Player(i as usize)) <==> {
            ||| exists|b: int|
                0 <= b < ships.len() && ships_hit(ships, distances.between_players@, i, b)
            ||| exists|a: int|
                0 <= a < ships.len() && ships_hit(ships, distances.between_players@, a, i)
            ||| exists|b: int|
                0 <= b < bullets.len() && bullet_hits_ship(
                    ships,
                    bullets,
                    distances.to_bullets@,
                    i,
                    b,
                )
        },
{
    let between = distances.between_players@;
    let to_bullets = distances.to_bullets@;
    let of_ships = ship_hits(ships, between, ships.len());
    let of_bullets = bullet_hits(ships, bullets, to_bullets, ships.len());
    let hits = all_hits(ships, bullets, distances);
    let victim = EntityId::Player(i as usize);
    lemma_victim_has_hit(hits, victim);
    let plain = HitMessage { killer: None, victim_id: victim };
    if exists|b: int| 0 <= b < ships.len() && ships_hit(ships, between, i, b) {
        let b = choose|b: int| 0 <= b < ships.len() && ships_hit(ships, between, i, b);
        assert(ship_pair(i, b)[0] == plain);
        assert(ship_pair(i, b).contains(plain));
        lemma_ship_hits_members(ships, between, ships.len(), plain);
        lemma_concat_members(of_ships, of_bullets, plain);
        assert(hits.contains(plain));
    }
    if exists|a: int| 0 <= a < ships.len() && ships_hit(ships, between, a, i) {
        let a = choose|a: int| 0 <= a < ships.len() && ships_hit(ships, between, a, i);
        assert(ship_pair(a, i)[1] == plain);
        assert(ship_pair(a, i).contains(plain));
        lemma_ship_hits_members(ships, between, ships.len(), plain);
        lemma_concat_members(of_ships, of_bullets, plain);
        assert(hits.contains(plain));
    }
    if exists|b: int| 0 <= b < bullets.len() && bullet_hits_ship(ships, bullets, to_bullets, i, b) {
        let b = choose|b: int|
            0 <= b < bullets.len() && bullet_hits_ship(ships, bullets, to_bullets, i, b);
        let team = bullets[b].shared.owning_team;
        let scored = HitMessage { killer: Some(team), victim_id: victim };
        assert(bullet_pair(i, b, team)[0] == scored);
        assert(bullet_pair(i, b, team).contains(scored));
        lemma_bullet_hits_members(ships, bullets, to_bullets, ships.len(), scored);
        lemma_concat_members(of_ships, of_bullets, scored);
        assert(hits.contains(scored));
    }
    if exists|hit: HitMessage| #[trigger] hits.contains(hit) && hit.victim_id == victim {
        let hit = choose|hit: HitMessage| #[trigger] hits.contains(hit) && hit.victim_id == victim;
        lemma_concat_members(of_ships, of_bullets, hit);
        lemma_ship_hits_members(ships, between, ships.len(), hit);
        lemma_bullet_hits_members(ships, bullets, to_bullets, ships.len(), hit);
    }
}

/// A bullet dies exactly where it touches a live ship.
pub proof fn bullet_dies_exactly_where_it_hits(
    ships: Seq<Player>,
    bullets: Seq<Bullet>,
    distances: Distances,
    b: int,
)
    requires
        ships.len() <= usize::MAX,
        0 <= b < bullets.len() <= usize::MAX,
    ensures
        victims_of(all_hits(ships, bullets, distances)).contains(EntityId::Bullet(b as usize))
            <==> exists|p: int|
            0 <= p < ships.len() && bullet_hits_ship(ships, bullets, distances.to_bullets@, p, b),
{
    let between = distances.between_players@;
    let to_bullets = distances.to_bullets@;
    let of_ships = ship_hits(ships, between, ships.len());
    let of_bullets = bullet_hits(ships, bullets, to_bullets, ships.len());
    let hits = all_hits(ships, bullets, distances);
    let victim = EntityId::Bullet(b as usize);
    lemma_victim_has_hit(hits, victim);
    let plain = HitMessage { killer: None, victim_id: victim };
    if exists|p: int| 0 <= p < ships.len() && bullet_hits_ship(ships, bullets, to_bullets, p, b) {
        let p = choose|p: int|
            0 <= p < ships.len() && bullet_hits_ship(ships, bullets, to_bullets, p, b);
        let team = bullets[b].shared.owning_team;
        assert(bullet_pair(p, b, team)[1] == plain);
        assert(bullet_pair(p, b, team).contains(plain));
        lemma_bullet_hits_members(ships, bullets, to_bullets, ships.len(), plain);
        lemma_concat_members(of_ships, of_bullets, plain);
        assert(hits.contains(plain));
    }
    if exists|hit: HitMessage| #[trigger] hits.contains(hit) && hit.victim_id == victim {
        let hit = choose|hit: HitMessage| #[trigger] hits.contains(hit) && hit.victim_id == victim;
        lemma_concat_members(of_ships, of_bullets, hit);
        lemma_ship_hits_members(ships, between, ships.len(), hit);
        lemma_bullet_hits_members(ships, bullets, to_bullets, ships.len(), hit);
    }
}

/// A team scores only for a bullet of its own that touches a ship of another team.
pub proof fn points_are_for_hitting_enemies(
    ships: Seq<Player>,
    bullets: Seq<Bullet>,
    distances: Distances,
    team: Team,
)
    requires
        killers_of(all_hits(ships, bullets, distances)).contains(team),
    ensures
        exists|p: int, b: int|
            {
                &&& 0 <= p < ships.len()
                &&& 0 <= b < bullets.len()
                &&& #[trigger] bullet_hits_ship(ships, bullets, distances.to_bullets@, p, b)
                &&& bullets[b].shared.owning_team == team
                &&& ships[p].shared.owning_team != team
            },
{
    let between = distances.between_players@;
    let to_bullets = distances.to_bullets@;
    let hits = all_hits(ships, bullets, distances);
    lemma_killer_has_hit(hits, team);
    let hit = choose|hit: HitMessage| #[trigger] hits.contains(hit) && hit.killer == Some(team);
    lemma_concat_members(
        ship_hits(ships, between, ships.len()),
        bullet_hits(ships, bullets, to_bullets, ships.len()),
        hit,
    );
    lemma_ship_hits_members(ships, between, ships.len(), hit);
    lemma_bullet_hits_members(ships, bullets, to_bullets, ships.len(), hit);
}

/// What dies is listed once, and everything that was hit is listed.
pub proof fn each_victim_dies_once(victims: Seq<EntityId>)
    ensures
        distinct(victims).no_duplicates(),
        forall|id: EntityId| #[trigger] distinct(victims).contains(id) <==> victims.contains(id),
    decreases victims.len(),
{
    if victims.len() > 0 {
        let front = victims.drop_last();
        each_victim_dies_once(front);
        let last = victims.last();
        let before = distinct(front);
        assert(victims =~= front.push(last));
        assert forall|id: EntityId| #[trigger] distinct(victims).contains(id) <==> victims.contains(
            id,
        ) by {
            if victims.contains(id) {
                let i = choose|i: int| 0 <= i < victims.len() && victims[i] == id;
                if i < front.len() {
                    assert(front[i] == id);
                    assert(before.contains(id));
                    let k = choose|k: int| 0 <= k < before.len() && before[k] == id;
                    assert(distinct(victims)[k] == id);
                } else if !before.contains(last) {
                    assert(distinct(victims)[before.len() as int] == id);
                }
            }
            if distinct(victims).contains(id) {
                let k = choose|k: int| 0 <= k < distinct(victims).len() && distinct(victims)[k] == id;
                if k < before.len() {
                    assert(before[k] == id);
                    assert(before.contains(id));
                    assert(front.contains(id));
                    let i = choose|i: int| 0 <= i < front.len() && front[i] == id;
                    assert(victims[i] == id);
                } else {
                    assert(victims[victims.len() - 1] == id);
                }
            }
        }
    }
}

/// The sum of some scores.
pub open spec fn total(scores: Seq<u32>) -> nat
    decreases scores.len(),
{
    if scores.len() == 0 {
        0
    } else {
        total(scores.drop_last()) + scores.last() as nat
    }
}

proof fn lemma_one_point(scores: Seq<u32>, place: int)
    requires
        0 <= place < scores.len(),
        scores[place] < u32::MAX,
    ensures
        total(scores.update(place, (scores[place] + 1) as u32)) == total(scores) + 1,
    decreases scores.len(),
{
    let after = scores.update(place, (scores[place] + 1) as u32);
    if place < scores.len() - 1 {
        lemma_one_point(scores.drop_last(), place);
        assert(after.drop_last() =~= scores.drop_last().update(
            place,
            (scores[place] + 1) as u32,
        ));
    } else {
        assert(after.drop_last() =~= scores.drop_last());
    }
}

/// Every kill is worth exactly one point, and no point is lost.
pub proof fn every_kill_is_one_point(scores: Seq<u32>, killers: Seq<Team>)
    requires
        scores_have_room(scores, killers),
    ensures
        total(scores_after(scores, killers)) == total(scores) + killers.len(),
    decreases killers.len(),
{
    if killers.len() == 0 {
        assert(scores_after(scores, killers) =~= scores);
    } else {
        let front = killers.drop_last();
        let last = killers.last().0 as int;
        assert(killers[killers.len() - 1].0 < scores.len());
        assert forall|i: int| 0 <= i < front.len() implies (#[trigger] front[i]).0 < scores.len() by {
            assert(front[i] == killers[i]);
        }
        assert forall|t: int| 0 <= t < scores.len() implies #[trigger] scores[t] + tally(front, t)
            <= u32::MAX by {
            assert(scores[t] + tally(killers, t) <= u32::MAX);
        }
        every_kill_is_one_point(scores, front);
        let before = scores_after(scores, front);
        assert(scores[last] + tally(killers, last) <= u32::MAX);
        lemma_one_point(before, last);
        assert forall|t: int| 0 <= t < scores.len() implies #[trigger] scores_after(
            scores,
            killers,
        )[t] == before.update(last, (before[last] + 1) as u32)[t] by {
            assert(scores[t] + tally(killers, t) <= u32::MAX);
        }
        assert(scores_after(scores, killers) =~= before.update(last, (before[last] + 1) as u32));
    }
}

} // verus!
