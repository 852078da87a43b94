//! Players who wait for their next ship.
use crate::double::Double;
use crate::retain::{kept, removed, within, RetainTools};
use vstd::prelude::*;

verus! {

/// Minus infinity, the time of death of a player who has never lived
pub const NEVER: u64 = 0xfff0_0000_0000_0000;

/// A player without a ship.
#[derive(Clone, Copy, Debug, PartialEq, Eq, Structural)]
pub struct DeadPlayer {
    /// When the player died.
    pub since: Double,
    /// When the player gets a new ship: the time of death and the time that a player stays
    /// dead.
    pub respawn_at: Double,
    pub player: u64,
}

/// The players of a list, in order.
pub open spec fn dead_keys(dead: Seq<DeadPlayer>) -> Seq<u64> {
    dead.map_values(|d: DeadPlayer| d.player)
}

/// For each dead player, whether the time of the next ship is yet to come.
pub open spec fn waiting(dead: Seq<DeadPlayer>, now: Double) -> Seq<bool> {
    Seq::new(dead.len(), |i: int| now.below(dead[i].respawn_at))
}

/// Takes out the players whose next ship is due.
pub fn take_due(dead: &mut Vec<DeadPlayer>, now: Double) -> (due: Vec<DeadPlayer>)
    ensures
        final(dead)@ == kept(old(dead)@, waiting(old(dead)@, now)),
        due@ == removed(old(dead)@, waiting(old(dead)@, now)),
{
    let ghost start = dead@;
    let still_waiting = |d: &mut DeadPlayer| -> (stays: bool)
        ensures
            stays == now.below(old(d).respawn_at),
            *final(d) == *old(d),
        { now.less(d.respawn_at) };
    let due = dead.retain_return(still_waiting);
    proof {
        let (after, keep) = choose|after: Seq<DeadPlayer>, keep: Seq<bool>|
            {
                &&& after.len() == start.len()
                &&& keep.len() == after.len()
                &&& forall|i: int| #[trigger]
                    within(i, keep.len() as int) ==> exists|t: &mut DeadPlayer|
                        {
                            &&& #[trigger] call_ensures(still_waiting, (t,), keep[i])
                            &&& *t == start[i]
                            &&& *final(t) == after[i]
                        }
                &&& dead@ == #[trigger] kept(after, keep)
                &&& due@ == removed(after, keep)
            };
        assert forall|i: int| 0 <= i < start.len() implies #[trigger] after[i] == start[i]
            && keep[i] == waiting(start, now)[i] by {
            assert(within(i, keep.len() as int));
        }
        assert(after =~= start);
        assert(keep =~= waiting(start, now));
    }
    due
}

/// A list in order of time, with one more player put in by the time of death, behind those who
/// died at the same time.
pub open spec fn put_in(list: Seq<DeadPlayer>, d: DeadPlayer) -> Seq<DeadPlayer>
    decreases list.len(),
{
    if list.len() == 0 || !d.since.below(list.last().since) {
        list.push(d)
    } else {
        put_in(list.drop_last(), d).push(list.last())
    }
}

/// A list put in order of the time of death, those of the same time in their old order.
pub open spec fn in_order(list: Seq<DeadPlayer>) -> Seq<DeadPlayer>
    decreases list.len(),
{
    if list.len() == 0 {
        list
    } else {
        put_in(in_order(list.drop_last()), list.last())
    }
}

fn put_in_place(list: &mut Vec<DeadPlayer>, d: DeadPlayer)
    ensures
        final(list)@ == put_in(old(list)@, d),
{
    let ghost start = list@;
    let mut place: usize = list.len();
    assert(start.take(start.len() as int) =~= start);
    assert(put_in(start, d) =~= put_in(start, d) + start.skip(start.len() as int));
    while place > 0 && d.since.less(list[place - 1].since)
        invariant
            list@ == start,
            place <= start.len(),
            put_in(start, d) == put_in(start.take(place as int), d) + start.skip(place as int),
        decreases place,
    {
        proof {
            let front = start.take(place as int);
            assert(front.last() == start[place - 1]);
            assert(front.drop_last() =~= start.take(place - 1));
            assert(put_in(front, d) + start.skip(place as int) =~= put_in(start.take(place - 1), d)
                + start.skip(place - 1));
        }
        place = place - 1;
    }
    proof {
        let front = start.take(place as int);
        if place > 0 {
            assert(front.last() == start[place - 1]);
        }
        assert(put_in(front, d) == front.push(d));
        assert(start.insert(place as int, d) =~= front.push(d) + start.skip(place as int));
    }
    list.insert(place, d);
}

/// Puts a list in order of the time of death.
pub fn sort_by_time(list: &mut Vec<DeadPlayer>)
    ensures
        final(list)@ == in_order(old(list)@),
{
    let ghost start = list@;
    let mut sorted: Vec<DeadPlayer> = Vec::new();
    assert(start.take(0) =~= Seq::empty());
    for i in 0..list.len()
        invariant
            list@ == start,
            sorted@ == in_order(start.take(i as int)),
    {
        assert(start.take(i + 1).drop_last() =~= start.take(i as int));
        assert(start.take(i + 1).last() == start[i as int]);
        put_in_place(&mut sorted, list[i]);
    }
    assert(start.take(start.len() as int) =~= start);
    *list = sorted;
}

proof fn lemma_put_in_same_elements(list: Seq<DeadPlayer>, d: DeadPlayer)
    ensures
        put_in(list, d).to_multiset() == list.push(d).to_multiset(),
        put_in(list, d).len() == list.len() + 1,
    decreases list.len(),
{
    broadcast use vstd::seq_lib::group_to_multiset_ensures;

    if list.len() == 0 || !d.since.below(list.last().since) {
    } else {
        let front = list.drop_last();
        lemma_put_in_same_elements(front, d);
        assert(list =~= front.push(list.last()));
        assert(put_in(list, d).to_multiset() =~= list.push(d).to_multiset());
    }
}

/// Ordering loses no player and adds none.
pub proof fn ordering_loses_nobody(list: Seq<DeadPlayer>)
    ensures
        in_order(list).to_multiset() == list.to_multiset(),
        in_order(list).len() == list.len(),
    decreases list.len(),
{
    broadcast use vstd::seq_lib::group_to_multiset_ensures;

    if list.len() > 0 {
        let front = list.drop_last();
        ordering_loses_nobody(front);
        lemma_put_in_same_elements(in_order(front), list.last());
        assert(list =~= front.push(list.last()));
        assert(in_order(list).to_multiset() =~= list.to_multiset());
    }
}

proof fn lemma_keys_of_put_in(list: Seq<DeadPlayer>, d: DeadPlayer)
    ensures
        dead_keys(put_in(list, d)).to_multiset() == dead_keys(list).to_multiset().insert(d.player),
    decreases list.len(),
{
    broadcast use vstd::seq_lib::group_to_multiset_ensures;

    if list.len() == 0 || !d.since.below(list.last().since) {
        assert(dead_keys(list.push(d)) =~= dead_keys(list).push(d.player));
    } else {
        let front = list.drop_last();
        let last = list.last();
        lemma_keys_of_put_in(front, d);
        assert(dead_keys(list) =~= dead_keys(front).push(last.player));
        assert(dead_keys(put_in(list, d)) =~= dead_keys(put_in(front, d)).push(last.player));
        assert(dead_keys(put_in(list, d)).to_multiset() =~= dead_keys(list).to_multiset().insert(
            d.player,
        ));
    }
}

/// The same players are in a list before and after ordering, each as often as before.
pub proof fn ordering_keeps_players(list: Seq<DeadPlayer>)
    ensures
        dead_keys(in_order(list)).to_multiset() == dead_keys(list).to_multiset(),
    decreases list.len(),
{
    broadcast use vstd::seq_lib::group_to_multiset_ensures;

    if list.len() > 0 {
        let front = list.drop_last();
        ordering_keeps_players(front);
        lemma_keys_of_put_in(in_order(front), list.last());
        assert(dead_keys(list) =~= dead_keys(front).push(list.last().player));
    }
}

/// Whether a list is in order of the time of death.
pub open spec fn is_ordered(list: Seq<DeadPlayer>) -> bool {
    forall|i: int, j: int|
        0 <= i < j < list.len() ==> !(#[trigger] list[j]).since.below((#[trigger] list[i]).since)
}

/// Whether every time of death is a number.
pub open spec fn times_are_numbers(list: Seq<DeadPlayer>) -> bool {
    forall|i: int| 0 <= i < list.len() ==> !(#[trigger] list[i]).since.is_nan()
}

proof fn lemma_put_in_ordered(list: Seq<DeadPlayer>, d: DeadPlayer)
    requires
        is_ordered(list),
        times_are_numbers(list),
        !d.since.is_nan(),
    ensures
        is_ordered(put_in(list, d)),
        times_are_numbers(put_in(list, d)),
        put_in(list, d).len() == list.len() + 1,
        forall|i: int|
            0 <= i < put_in(list, d).len() ==> #[trigger] put_in(list, d)[i] == d || list.contains(
                put_in(list, d)[i],
            ),
    decreases list.len(),
{
    let result = put_in(list, d);
    if list.len() == 0 || !d.since.below(list.last().since) {
        assert forall|i: int, j: int| 0 <= i < j < result.len() implies !(
        #[trigger] result[j]).since.below((#[trigger] result[i]).since) by {
            if j == list.len() {
                assert(list[i] == result[i]);
                if i < list.len() - 1 {
                    assert(!list[list.len() - 1].since.below(list[i].since));
                }
            }
        }
        assert forall|i: int| 0 <= i < result.len() implies #[trigger] result[i] == d
            || list.contains(result[i]) by {
            if i < list.len() {
                assert(list[i] == result[i]);
            }
        }
    } else {
        let front = list.drop_last();
        let last = list.last();
        lemma_put_in_ordered(front, d);
        let inner = put_in(front, d);
        assert forall|i: int| 0 <= i < result.len() implies #[trigger] result[i] == d
            || list.contains(result[i]) by {
            if i < inner.len() {
                assert(result[i] == inner[i]);
                if inner[i] != d {
                    let k = choose|k: int| 0 <= k < front.len() && front[k] == inner[i];
                    assert(list[k] == result[i]);
                }
            } else {
                assert(list[list.len() - 1] == result[i]);
            }
        }
        assert forall|i: int, j: int| 0 <= i < j < result.len() implies !(
        #[trigger] result[j]).since.below((#[trigger] result[i]).since) by {
            if j < inner.len() {
                assert(result[i] == inner[i] && result[j] == inner[j]);
            } else {
                assert(result[i] == inner[i]);
                if inner[i] != d {
                    let k = choose|k: int| 0 <= k < front.len() && front[k] == inner[i];
                    assert(list[k] == inner[i]);
                    assert(!list[list.len() - 1].since.below(list[k].since));
                }
            }
        }
    }
}

/// Ordering puts the times of death in order, provided that they are numbers.
pub proof fn ordering_orders(list: Seq<DeadPlayer>)
    requires
        times_are_numbers(list),
    ensures
        is_ordered(in_order(list)),
        times_are_numbers(in_order(list)),
    decreases list.len(),
{
    if list.len() > 0 {
        let front = list.drop_last();
        assert forall|i: int| 0 <= i < front.len() implies !(#[trigger] front[i]).since.is_nan() by {
            assert(front[i] == list[i]);
        }
        ordering_orders(front);
        assert(!list[list.len() - 1].since.is_nan());
        lemma_put_in_ordered(in_order(front), list.last());
    }
}

} // verus!
