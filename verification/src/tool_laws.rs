//! What the tools of the game are for, said of their inputs and results alone.
use crate::controller::weight;
use crate::interpolation::between;
use crate::retain::{exactly_the_rejected_leave, kept, rejected, removed};
use crate::transport::{
    is_to_be_repeated, spec_codec_error, step_after_write, CodecError, IoError, SendStep,
    TransportError,
};
use crate::unzip::{firsts, seconds};
use vstd::prelude::*;

verus! {

/// Whether some places are, in order, exactly those that are chosen.
pub open spec fn are_the_chosen(places: Seq<int>, chosen: Seq<bool>) -> bool {
    &&& forall|k: int|
        0 <= k < places.len() ==> 0 <= #[trigger] places[k] < chosen.len() && chosen[places[k]]
    &&& forall|k: int, l: int| 0 <= k < l < places.len() ==> places[k] < places[l]
    &&& forall|j: int| 0 <= j < chosen.len() && #[trigger] chosen[j] ==> places.contains(j)
}

/// The elements at some places.
pub open spec fn elements_at<T>(list: Seq<T>, places: Seq<int>) -> Seq<T> {
    Seq::new(places.len(), |k: int| list[places[k]])
}

/// The places that are chosen, in order.
pub open spec fn chosen_places(chosen: Seq<bool>) -> Seq<int>
    decreases chosen.len(),
{
    if chosen.len() == 0 {
        Seq::empty()
    } else if chosen.last() {
        chosen_places(chosen.drop_last()).push(chosen.len() - 1)
    } else {
        chosen_places(chosen.drop_last())
    }
}

pub proof fn lemma_chosen_places(chosen: Seq<bool>)
    ensures
        are_the_chosen(chosen_places(chosen), chosen),
    decreases chosen.len(),
{
    let places = chosen_places(chosen);
    if chosen.len() > 0 {
        let front = chosen.drop_last();
        let before = chosen_places(front);
        lemma_chosen_places(front);
        assert forall|k: int| 0 <= k < places.len() implies 0 <= #[trigger] places[k] < chosen.len()
            && chosen[places[k]] by {
            if k < before.len() {
                assert(places[k] == before[k]);
                assert(front[before[k]]);
            }
        }
        assert forall|k: int, l: int| 0 <= k < l < places.len() implies places[k] < places[l] by {
            assert(places[k] == before[k]);
            assert(0 <= before[k] < front.len());
            if l < before.len() {
                assert(places[l] == before[l]);
            }
        }
        assert forall|j: int| 0 <= j < chosen.len() && #[trigger] chosen[j] implies places.contains(
            j,
        ) by {
            if j < front.len() {
                assert(front[j]);
                let k = choose|k: int| 0 <= k < before.len() && before[k] == j;
                assert(places[k] == j);
            } else {
                assert(places[before.len() as int] == j);
            }
        }
    }
}

pub proof fn lemma_kept_is_chosen<T>(list: Seq<T>, keep: Seq<bool>)
    requires
        keep.len() == list.len(),
    ensures
        kept(list, keep) == elements_at(list, chosen_places(keep)),
    decreases list.len(),
{
    if list.len() > 0 {
        lemma_kept_is_chosen(list.drop_last(), keep.drop_last());
        lemma_chosen_places(keep.drop_last());
    }
    assert(kept(list, keep) =~= elements_at(list, chosen_places(keep)));
}

/// Of a list, exactly the accepted elements stay, in their order; exactly the others leave.
pub proof fn the_accepted_stay_in_order<T>(list: Seq<T>, keep: Seq<bool>)
    requires
        keep.len() == list.len(),
    ensures
        exists|places: Seq<int>|
            {
                &&& are_the_chosen(places, keep)
                &&& kept(list, keep) == #[trigger] elements_at(list, places)
            },
        exists|places: Seq<int>|
            {
                &&& are_the_chosen(places, keep.map_values(|k: bool| !k))
                &&& removed(list, keep).to_multiset() == (#[trigger] elements_at(
                    list,
                    places,
                )).to_multiset()
            },
{
    lemma_chosen_places(keep);
    lemma_kept_is_chosen(list, keep);
    let others = keep.map_values(|k: bool| !k);
    assert(rejected(keep) =~= others);
    exactly_the_rejected_leave(list, keep);
    lemma_chosen_places(others);
    lemma_kept_is_chosen(list, others);
    assert(kept(list, keep) == elements_at(list, chosen_places(keep)));
    assert(removed(list, keep).to_multiset() == elements_at(
        list,
        chosen_places(others),
    ).to_multiset());
}

/// Elements that leave behind all others leave last, in their order.
pub proof fn who_leaves_last_is_last<T>(list: Seq<T>, keep: Seq<bool>, tail: Seq<T>)
    requires
        keep.len() == list.len(),
    ensures
        removed(list + tail, keep + Seq::new(tail.len(), |i: int| false)) == removed(list, keep)
            + tail,
        kept(list + tail, keep + Seq::new(tail.len(), |i: int| false)) == kept(list, keep),
    decreases tail.len(),
{
    let answers = keep + Seq::new(tail.len(), |i: int| false);
    if tail.len() == 0 {
        assert(list + tail =~= list);
        assert(answers =~= keep);
        assert(removed(list, keep) + tail =~= removed(list, keep));
    } else {
        let front = tail.drop_last();
        who_leaves_last_is_last(list, keep, front);
        assert((list + tail).drop_last() =~= list + front);
        assert(answers.drop_last() =~= keep + Seq::new(front.len(), |i: int| false));
        assert(removed(list, keep) + tail =~= (removed(list, keep) + front).push(tail.last()));
    }
}

/// An element that stays behind all others moves the first one of those that leave to the end;
/// where none leaves, none is moved.
pub proof fn who_stays_last_moves_the_first_to_the_end<T>(list: Seq<T>, keep: Seq<bool>, last: T)
    requires
        keep.len() == list.len(),
    ensures
        ({
            let leaving = removed(list, keep);
            let moved = removed(list.push(last), keep.push(true));
            &&& moved.len() == leaving.len()
            &&& leaving.len() > 0 ==> moved[leaving.len() - 1] == leaving[0]
            &&& forall|i: int| 0 <= i < leaving.len() - 1 ==> #[trigger] moved[i] == leaving[i + 1]
        }),
{
    assert(list.push(last).drop_last() =~= list);
    assert(keep.push(true).drop_last() =~= keep);
}

/// For each pair, whether its first part is there.
pub open spec fn has_first<A, B>(pairs: Seq<(Option<A>, Option<B>)>) -> Seq<bool> {
    Seq::new(pairs.len(), |i: int| pairs[i].0 is Some)
}

/// For each pair, whether its second part is there.
pub open spec fn has_second<A, B>(pairs: Seq<(Option<A>, Option<B>)>) -> Seq<bool> {
    Seq::new(pairs.len(), |i: int| pairs[i].1 is Some)
}

proof fn lemma_split<A, B>(pairs: Seq<(Option<A>, Option<B>)>)
    ensures
        ({
            let left = chosen_places(has_first(pairs));
            let right = chosen_places(has_second(pairs));
            &&& firsts(pairs).len() == left.len()
            &&& seconds(pairs).len() == right.len()
            &&& forall|k: int|
                0 <= k < left.len() ==> pairs[left[k]].0 == Some(#[trigger] firsts(pairs)[k])
            &&& forall|k: int|
                0 <= k < right.len() ==> pairs[right[k]].1 == Some(#[trigger] seconds(pairs)[k])
        }),
    decreases pairs.len(),
{
    let left = chosen_places(has_first(pairs));
    let right = chosen_places(has_second(pairs));
    if pairs.len() > 0 {
        let front = pairs.drop_last();
        lemma_split(front);
        assert(has_first(pairs).drop_last() =~= has_first(front));
        assert(has_second(pairs).drop_last() =~= has_second(front));
        let left_front = chosen_places(has_first(front));
        let right_front = chosen_places(has_second(front));
        lemma_chosen_places(has_first(front));
        lemma_chosen_places(has_second(front));
        assert forall|k: int| 0 <= k < left.len() implies pairs[left[k]].0 == Some(
            #[trigger] firsts(pairs)[k],
        ) by {
            if k < left_front.len() {
                assert(left[k] == left_front[k]);
                assert(firsts(pairs)[k] == firsts(front)[k]);
                assert(front[left_front[k]] == pairs[left_front[k]]);
            }
        }
        assert forall|k: int| 0 <= k < right.len() implies pairs[right[k]].1 == Some(
            #[trigger] seconds(pairs)[k],
        ) by {
            if k < right_front.len() {
                assert(right[k] == right_front[k]);
                assert(seconds(pairs)[k] == seconds(front)[k]);
                assert(front[right_front[k]] == pairs[right_front[k]]);
            }
        }
    }
}

/// Splitting pairs hands back every first part that is there, once and in order, and every second
/// part that is there, once and in order.
pub proof fn splitting_keeps_every_part_in_order<A, B>(pairs: Seq<(Option<A>, Option<B>)>)
    ensures
        exists|places: Seq<int>|
            {
                &&& #[trigger] are_the_chosen(places, has_first(pairs))
                &&& firsts(pairs).len() == places.len()
                &&& forall|k: int|
                    0 <= k < places.len() ==> pairs[places[k]].0 == Some(
                        #[trigger] firsts(pairs)[k],
                    )
            },
        exists|places: Seq<int>|
            {
                &&& #[trigger] are_the_chosen(places, has_second(pairs))
                &&& seconds(pairs).len() == places.len()
                &&& forall|k: int|
                    0 <= k < places.len() ==> pairs[places[k]].1 == Some(
                        #[trigger] seconds(pairs)[k],
                    )
            },
{
    lemma_split(pairs);
    lemma_chosen_places(has_first(pairs));
    lemma_chosen_places(has_second(pairs));
    assert(are_the_chosen(chosen_places(has_first(pairs)), has_first(pairs)));
    assert(are_the_chosen(chosen_places(has_second(pairs)), has_second(pairs)));
}

/// A failure of the codec stands for that of the device exactly where the device failed, at the
/// marker or at the data, and for some other failure otherwise; it never says that nothing is
/// there yet.
pub proof fn device_failures_are_passed_on<E>(e: CodecError<E>, io: IoError<E>)
    ensures
        spec_codec_error(e) == TransportError::Io(io) <==> e == CodecError::Marker(io) || e
            == CodecError::Data(io),
        spec_codec_error(e) is Other <==> e is Other,
        spec_codec_error(e) !is WouldBlock,
{
}

/// A message is written again exactly where the device was busy, at the marker or at the data.
pub proof fn only_a_busy_device_is_tried_again<E>(outcome: Result<(), CodecError<E>>)
    ensures
        is_to_be_repeated(outcome) <==> match outcome {
            Ok(()) => false,
            Err(e) => match spec_codec_error(e) {
                TransportError::Io(io) => io.would_block,
                _ => false,
            },
        },
        outcome is Ok ==> !is_to_be_repeated(outcome),
{
}

/// What follows an attempt to write: another one exactly where the device was busy; otherwise
/// success exactly where it succeeded, the failure of the device where the device failed, and
/// some other failure where the message is at fault.
pub proof fn writing_goes_on_until_it_is_decided<E>(outcome: Result<(), CodecError<E>>)
    ensures
        match outcome {
            Ok(()) => step_after_write(outcome) == SendStep::Done(Ok::<(), TransportError<E>>(())),
            Err(CodecError::Marker(io)) => if io.would_block {
                step_after_write(outcome) is Again
            } else {
                step_after_write(outcome) == SendStep::Done(
                    Err::<(), TransportError<E>>(TransportError::Io(io)),
                )
            },
            Err(CodecError::Data(io)) => if io.would_block {
                step_after_write(outcome) is Again
            } else {
                step_after_write(outcome) == SendStep::Done(
                    Err::<(), TransportError<E>>(TransportError::Io(io)),
                )
            },
            Err(CodecError::Other) => step_after_write(outcome) == SendStep::Done(
                Err::<(), TransportError<E>>(TransportError::Other),
            ),
        },
{
}

/// Between two whole numbers the value at some part of the way is the first and that many times
/// the difference, as long as nothing exceeds the range of the numbers.
pub proof fn interpolation_is_linear(a: i64, b: i64, part: i64)
    requires
        i64::MIN <= b - a <= i64::MAX,
        i64::MIN <= (b - a) * part <= i64::MAX,
        i64::MIN <= a + (b - a) * part <= i64::MAX,
    ensures
        between(a, b, part) == a + (b - a) * part,
{
}

/// A turn or a thrust is asked for exactly where one of the two controls is held down and the
/// other is not.
pub proof fn opposite_controls_cancel(one: bool, other: bool)
    ensures
        weight(one) - weight(other) == 1 <==> one && !other,
        weight(one) - weight(other) == -1 <==> !one && other,
        weight(one) - weight(other) == 0 <==> one == other,
{
}

} // verus!
