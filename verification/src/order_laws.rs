//! What numbers, times and numbered messages are ordered by, said without their encoding rules.
use crate::double::{lemma_magnitude_order, magnitude_value, Double};
use crate::graveyard::{in_order, put_in, DeadPlayer};
use crate::nonce::{after_arrival, is_newer, received_from, taken, NoncedMessage};
use crate::pace::{time_left, TICK_NANOS};
use crate::tool_laws::{are_the_chosen, chosen_places, elements_at, lemma_chosen_places};
use vstd::prelude::*;

verus! {

/// Whether bits encode no number: all exponent bits set, and a fraction.
pub open spec fn encodes_no_number(d: Double) -> bool {
    ||| 0x7ff0_0000_0000_0000 < d.bits < 0x8000_0000_0000_0000
    ||| 0xfff0_0000_0000_0000 < d.bits
}

/// Whether bits encode a number with the sign bit set.
pub open spec fn is_signed(d: Double) -> bool {
    d.bits >= 0x8000_0000_0000_0000
}

/// Numbers are ordered as their bits say: unsigned ones by their bits, signed ones against them,
/// and a signed one is below an unsigned one unless both are zero. What is no number is below
/// nothing and has nothing below it.
pub proof fn numbers_are_ordered_as_their_bits_say(a: Double, b: Double)
    ensures
        a.is_nan() <==> encodes_no_number(a),
        a.below(b) <==> {
            &&& !encodes_no_number(a)
            &&& !encodes_no_number(b)
            &&& {
                ||| !is_signed(a) && !is_signed(b) && a.bits < b.bits
                ||| is_signed(a) && is_signed(b) && b.bits < a.bits
                ||| is_signed(a) && !is_signed(b) && !(a.bits == 0x8000_0000_0000_0000 && b.bits
                    == 0)
            }
        },
{
    let left = a.magnitude();
    let right = b.magnitude();
    assert(magnitude_value(0) == 0);
    if 0 < left {
        lemma_magnitude_order(0, left);
    }
    if 0 < right {
        lemma_magnitude_order(0, right);
    }
    if left < right {
        lemma_magnitude_order(left, right);
    }
    if right < left {
        lemma_magnitude_order(right, left);
    }
}

/// The players of a list who died at a given time, in order.
pub open spec fn died_at(list: Seq<DeadPlayer>, time: int) -> Seq<DeadPlayer> {
    list.filter(|d: DeadPlayer| d.since.value() == time)
}

proof fn lemma_died_at_push(list: Seq<DeadPlayer>, d: DeadPlayer, time: int)
    ensures
        died_at(list.push(d), time) == if d.since.value() == time {
            died_at(list, time).push(d)
        } else {
            died_at(list, time)
        },
{
    reveal(Seq::filter);
    assert(list.push(d).drop_last() =~= list);
    assert(list.push(d).last() == d);
}

proof fn lemma_put_in_is_stable(list: Seq<DeadPlayer>, d: DeadPlayer, time: int)
    ensures
        died_at(put_in(list, d), time) == died_at(list.push(d), time),
    decreases list.len(),
{
    if list.len() == 0 || !d.since.below(list.last().since) {
    } else {
        let front = list.drop_last();
        let last = list.last();
        lemma_put_in_is_stable(front, d, time);
        assert(list =~= front.push(last));
        lemma_died_at_push(put_in(front, d), last, time);
        lemma_died_at_push(front, d, time);
        lemma_died_at_push(list, d, time);
        lemma_died_at_push(front, last, time);
    }
}

/// Putting a list in order leaves those who died at the same time in their order.
pub proof fn ordering_is_stable(list: Seq<DeadPlayer>, time: int)
    ensures
        died_at(in_order(list), time) == died_at(list, time),
    decreases list.len(),
{
    if list.len() > 0 {
        let front = list.drop_last();
        ordering_is_stable(front, time);
        assert(list =~= front.push(list.last()));
        lemma_put_in_is_stable(in_order(front), list.last(), time);
        lemma_died_at_push(in_order(front), list.last(), time);
        lemma_died_at_push(front, list.last(), time);
    }
}

/// For each arrival, whether its number is higher than all numbers that came before it.
pub open spec fn is_highest_so_far(last: Option<u32>, arrivals: Seq<u32>) -> Seq<bool> {
    Seq::new(
        arrivals.len(),
        |i: int|
            {
                &&& last matches Some(earlier) ==> earlier < arrivals[i]
                &&& forall|j: int| 0 <= j < i ==> #[trigger] arrivals[j] < arrivals[i]
            },
    )
}

proof fn lemma_taken_by_parts(last: Option<u32>, arrivals: Seq<u32>, next: u32)
    ensures
        ({
            let highest = is_highest_so_far(last, arrivals.push(next));
            taken(last, arrivals.push(next)) == if highest[arrivals.len() as int] {
                taken(last, arrivals).push(next)
            } else {
                taken(last, arrivals)
            }
        }),
    decreases arrivals.len(),
{
    let all = arrivals.push(next);
    let highest = is_highest_so_far(last, all);
    let n = arrivals.len() as int;
    if arrivals.len() == 0 {
        assert(all.drop_first() =~= Seq::empty());
        assert(taken(after_arrival(last, next), all.drop_first()) =~= Seq::empty());
        assert(taken(last, all) =~= if highest[n] {
            taken(last, arrivals).push(next)
        } else {
            taken(last, arrivals)
        });
    } else {
        let head = arrivals[0];
        let rest = arrivals.drop_first();
        let seen = after_arrival(last, head);
        assert(all.drop_first() =~= rest.push(next));
        lemma_taken_by_parts(seen, rest, next);
        let later = is_highest_so_far(seen, rest.push(next));
        assert(later[n - 1] == highest[n]) by {
            if later[n - 1] {
                assert forall|j: int| 0 <= j < n implies #[trigger] all[j] < all[n] by {
                    if j > 0 {
                        assert(rest.push(next)[j - 1] < rest.push(next)[n - 1]);
                    } else {
                        assert(seen matches Some(s) ==> s >= head);
                    }
                }
            }
            if highest[n] {
                assert(all[0] < all[n]);
                assert forall|j: int| 0 <= j < n - 1 implies #[trigger] rest.push(next)[j]
                    < rest.push(next)[n - 1] by {
                    assert(all[j + 1] < all[n]);
                }
            }
        }
        assert(taken(last, all) =~= if highest[n] {
            taken(last, arrivals).push(next)
        } else {
            taken(last, arrivals)
        });
    }
}

/// Of a sequence of arrivals exactly those are taken whose number is higher than all that came
/// before, in their order.
pub proof fn exactly_the_highest_so_far_are_taken(last: Option<u32>, arrivals: Seq<u32>)
    ensures
        exists|places: Seq<int>|
            {
                &&& are_the_chosen(places, is_highest_so_far(last, arrivals))
                &&& taken(last, arrivals) == #[trigger] elements_at(arrivals, places)
            },
    decreases arrivals.len(),
{
    lemma_chosen_places(is_highest_so_far(last, arrivals));
    lemma_taken_are_chosen(last, arrivals);
    assert(taken(last, arrivals) == elements_at(
        arrivals,
        chosen_places(is_highest_so_far(last, arrivals)),
    ));
}

proof fn lemma_taken_are_chosen(last: Option<u32>, arrivals: Seq<u32>)
    ensures
        taken(last, arrivals) == elements_at(
            arrivals,
            chosen_places(is_highest_so_far(last, arrivals)),
        ),
    decreases arrivals.len(),
{
    let highest = is_highest_so_far(last, arrivals);
    if arrivals.len() > 0 {
        let front = arrivals.drop_last();
        lemma_taken_are_chosen(last, front);
        assert(arrivals =~= front.push(arrivals.last()));
        lemma_taken_by_parts(last, front, arrivals.last());
        assert(highest.drop_last() =~= is_highest_so_far(last, front)) by {
            assert forall|i: int| 0 <= i < front.len() implies highest.drop_last()[i]
                == is_highest_so_far(last, front)[i] by {
                assert forall|j: int| 0 <= j < i implies arrivals[j] == front[j] by {}
                if highest[i] {
                    assert forall|j: int| 0 <= j < i implies #[trigger] front[j] < front[i] by {
                        assert(arrivals[j] < arrivals[i]);
                    }
                }
                if is_highest_so_far(last, front)[i] {
                    assert forall|j: int| 0 <= j < i implies #[trigger] arrivals[j]
                        < arrivals[i] by {
                        assert(front[j] < front[i]);
                    }
                }
            }
        }
        lemma_chosen_places(highest.drop_last());
    }
    assert(taken(last, arrivals) =~= elements_at(arrivals, chosen_places(highest)));
}

/// A number is taken exactly where it is higher than the last one taken, or the first of all; it
/// is the last one taken then, and a number that is not taken leaves no trace.
pub proof fn a_number_is_taken_once(last: Option<u32>, nonce: u32)
    ensures
        is_newer(None, nonce),
        last matches Some(earlier) ==> (is_newer(last, nonce) <==> earlier < nonce),
        is_newer(last, nonce) ==> after_arrival(last, nonce) == Some(nonce),
        !is_newer(last, nonce) ==> after_arrival(last, nonce) == last,
        !is_newer(after_arrival(last, nonce), nonce),
{
}

/// Sixty ticks take no more than a second, and a tick that is longer by a nanosecond would not
/// fit sixty times.
pub proof fn there_are_sixty_ticks_in_a_second()
    ensures
        60 * TICK_NANOS <= 1_000_000_000 < 60 * (TICK_NANOS + 1),
{
}

/// Work and rest of a tick take 16666666 nanoseconds together. There is no rest exactly where
/// the work takes longer.
pub proof fn work_and_rest_make_a_tick(elapsed_nanos: u128)
    ensures
        time_left(elapsed_nanos) is None <==> elapsed_nanos > 16_666_666,
        time_left(elapsed_nanos) matches Some(left) ==> elapsed_nanos + left == 16_666_666,
{
}

/// A message is received as it was sent exactly where its number is higher than the last one
/// taken, or where none was taken yet.
pub proof fn messages_are_received_as_they_were_sent<T>(last: Option<u32>, nonce: u32, val: T)
    ensures
        received_from(last, NoncedMessage(nonce, val)) is Ok <==> {
            ||| last is None
            ||| last->0 < nonce
        },
        received_from(last, NoncedMessage(nonce, val)) matches Ok(got) ==> got == val,
{
}

} // verus!
