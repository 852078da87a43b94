//! What a client shows after each message and each frame, said object by object.
use crate::client::{
    after_arrivals, after_deletions, after_handshake, after_tick, all_after,
    board_of, deletions_remove_exactly_what_is_gone, low_half, offsets_of, received, reports_of,
    settled, ClientDrawable, ClientWorld, Inbox, Offset,
};
use crate::controller::{Button, ButtonArgs, ControllerState, Key};
use crate::double::{Double, Vec2};
use crate::entity::Drawable;
use crate::packets::{ClientMessage, NewObject, ObjectInfo, ServerMessage};
use vstd::prelude::*;

verus! {

/// Whether an object moves and looks as it is described, wherever it is.
pub open spec fn moves_as_described(
    object: ClientDrawable,
    drawable: Drawable,
    info: ObjectInfo,
) -> bool {
    &&& object.velocity.x == info.velocity.0
    &&& object.velocity.y == info.velocity.1
    &&& object.rotation == info.rotation
    &&& object.rotation_speed == info.rotation_speed
    &&& object.drawable == drawable
}

/// Whether an object is where it is described to be.
pub open spec fn is_where_described(object: ClientDrawable, info: ObjectInfo) -> bool {
    object.position.x == info.position.0 && object.position.y == info.position.1
}

/// Whether nothing behind an entry of a list of new objects has its id.
pub open spec fn is_last_new(new: Seq<NewObject>, i: int) -> bool {
    &&& 0 <= i < new.len()
    &&& forall|j: int| i < j < new.len() ==> (#[trigger] new[j]).id != new[i].id
}

/// Whether nothing behind an entry of a list by id has its id.
pub open spec fn is_last_entry<T>(items: Seq<(u32, T)>, i: int) -> bool {
    &&& 0 <= i < items.len()
    &&& forall|j: int| i < j < items.len() ==> (#[trigger] items[j]).0 != items[i].0
}

/// Whether an id occurs among new objects.
pub open spec fn is_new(new: Seq<NewObject>, id: u32) -> bool {
    exists|i: int| 0 <= i < new.len() && (#[trigger] new[i]).id == id
}

/// Whether an id occurs in a list by id.
pub open spec fn is_listed<T>(items: Seq<(u32, T)>, id: u32) -> bool {
    exists|i: int| 0 <= i < items.len() && (#[trigger] items[i]).0 == id
}

proof fn lemma_new_by_parts(new: Seq<NewObject>, id: u32)
    requires
        new.len() > 0,
    ensures
        is_new(new, id) <==> is_new(new.drop_last(), id) || new.last().id == id,
{
    let front = new.drop_last();
    if is_new(new, id) {
        let i = choose|i: int| 0 <= i < new.len() && (#[trigger] new[i]).id == id;
        if i < front.len() {
            assert(front[i].id == id);
        }
    }
    if is_new(front, id) {
        let i = choose|i: int| 0 <= i < front.len() && (#[trigger] front[i]).id == id;
        assert(new[i].id == id);
    }
    if new.last().id == id {
        assert(new[new.len() - 1].id == id);
    }
}

proof fn lemma_listed_by_parts<T>(items: Seq<(u32, T)>, id: u32)
    requires
        items.len() > 0,
    ensures
        is_listed(items, id) <==> is_listed(items.drop_last(), id) || items.last().0 == id,
{
    let front = items.drop_last();
    if is_listed(items, id) {
        let i = choose|i: int| 0 <= i < items.len() && (#[trigger] items[i]).0 == id;
        if i < front.len() {
            assert(front[i].0 == id);
        }
    }
    if is_listed(front, id) {
        let i = choose|i: int| 0 <= i < front.len() && (#[trigger] front[i]).0 == id;
        assert(items[i].0 == id);
    }
    if items.last().0 == id {
        assert(items[items.len() - 1].0 == id);
    }
}

proof fn lemma_last_in_front<T>(items: Seq<(u32, T)>, i: int)
    requires
        is_last_entry(items, i),
        i < items.len() - 1,
    ensures
        is_last_entry(items.drop_last(), i),
        items.last().0 != items[i].0,
{
    let front = items.drop_last();
    assert forall|j: int| i < j < front.len() implies (#[trigger] front[j]).0 != front[i].0 by {
        assert(items[j].0 != items[i].0);
    }
    assert(items[items.len() - 1].0 != items[i].0);
}

/// Every object that has appeared is shown, at the place given for it and otherwise as it was
/// announced. Every other object is shown exactly as before, and nothing else is shown. Where an
/// id was announced twice, the later announcement counts.
pub proof fn every_new_object_is_shown(
    entities: Map<u32, ClientDrawable>,
    new: Seq<NewObject>,
    places: Seq<Vec2>,
)
    requires
        places.len() == new.len(),
    ensures
        ({
            let after = after_arrivals(entities, new, places);
            &&& forall|id: u32| #[trigger]
                after.contains_key(id) <==> entities.contains_key(id) || is_new(new, id)
            &&& forall|i: int|
                #![trigger new[i]]
                is_last_new(new, i) ==> {
                    &&& after[new[i].id].position == places[i]
                    &&& moves_as_described(
                        after[new[i].id],
                        new[i].drawable,
                        new[i].initial_info,
                    )
                }
            &&& forall|id: u32| !(#[trigger] is_new(new, id)) ==> after[id] == entities[id]
        }),
    decreases new.len(),
{
    let after = after_arrivals(entities, new, places);
    if new.len() > 0 {
        let front = new.drop_last();
        let front_places = places.drop_last();
        every_new_object_is_shown(entities, front, front_places);
        let before = after_arrivals(entities, front, front_places);
        assert forall|id: u32| #[trigger] after.contains_key(id) <==> entities.contains_key(id)
            || is_new(new, id) by {
            lemma_new_by_parts(new, id);
            assert(before.contains_key(id) <==> entities.contains_key(id) || is_new(front, id));
        }
        assert forall|i: int|
            #![trigger new[i]]
            is_last_new(new, i) implies {
            &&& after[new[i].id].position == places[i]
            &&& moves_as_described(after[new[i].id], new[i].drawable, new[i].initial_info)
        } by {
            if i < front.len() {
                assert(front[i] == new[i]);
                assert forall|j: int| i < j < front.len() implies (#[trigger] front[j]).id
                    != front[i].id by {
                    assert(new[j].id != new[i].id);
                }
                assert(new[new.len() - 1].id != new[i].id);
                assert(is_last_new(front, i));
                assert(front_places[i] == places[i]);
            }
        }
        assert forall|id: u32| !(#[trigger] is_new(new, id)) implies after[id] == entities[id] by {
            lemma_new_by_parts(new, id);
            assert(!is_new(front, id));
        }
    }
}

/// Every object that the server describes in its first answer is shown exactly as described, and
/// every other one exactly as before. Where an id is described twice, the later one counts.
pub proof fn everything_described_is_shown(
    entities: Map<u32, ClientDrawable>,
    objects: Seq<(u32, (Drawable, ObjectInfo))>,
)
    ensures
        ({
            let after = after_handshake(entities, objects);
            &&& forall|id: u32| #[trigger]
                after.contains_key(id) <==> entities.contains_key(id) || is_listed(objects, id)
            &&& forall|i: int|
                #![trigger objects[i]]
                is_last_entry(objects, i) ==> {
                    &&& is_where_described(after[objects[i].0], objects[i].1.1)
                    &&& moves_as_described(
                        after[objects[i].0],
                        objects[i].1.0,
                        objects[i].1.1,
                    )
                }
            &&& forall|id: u32| !(#[trigger] is_listed(objects, id)) ==> after[id] == entities[id]
        }),
    decreases objects.len(),
{
    let after = after_handshake(entities, objects);
    if objects.len() > 0 {
        let front = objects.drop_last();
        everything_described_is_shown(entities, front);
        let before = after_handshake(entities, front);
        assert forall|id: u32| #[trigger] after.contains_key(id) <==> entities.contains_key(id)
            || is_listed(objects, id) by {
            lemma_listed_by_parts(objects, id);
            assert(before.contains_key(id) <==> entities.contains_key(id) || is_listed(front, id));
        }
        assert forall|i: int|
            #![trigger objects[i]]
            is_last_entry(objects, i) implies {
            &&& is_where_described(after[objects[i].0], objects[i].1.1)
            &&& moves_as_described(after[objects[i].0], objects[i].1.0, objects[i].1.1)
        } by {
            if i < front.len() {
                assert(front[i] == objects[i]);
                lemma_last_in_front(objects, i);
            }
        }
        assert forall|id: u32| !(#[trigger] is_listed(objects, id)) implies after[id]
            == entities[id] by {
            lemma_listed_by_parts(objects, id);
            assert(!is_listed(front, id));
        }
    }
}

/// A tick shows no new object and hides none. Every object that it mentions goes exactly where
/// the tick says and keeps its looks; every other one stays exactly as it is. Where a tick
/// mentions an object twice, the later mention counts.
pub proof fn a_tick_places_what_it_mentions(
    entities: Map<u32, ClientDrawable>,
    info: Seq<(u32, ObjectInfo)>,
)
    ensures
        ({
            let after = after_tick(entities, info);
            &&& forall|id: u32| #[trigger] after.contains_key(id) <==> entities.contains_key(id)
            &&& forall|i: int|
                #![trigger info[i]]
                is_last_entry(info, i) && entities.contains_key(info[i].0) ==> {
                    &&& is_where_described(after[info[i].0], info[i].1)
                    &&& moves_as_described(
                        after[info[i].0],
                        entities[info[i].0].drawable,
                        info[i].1,
                    )
                }
            &&& forall|id: u32| !(#[trigger] is_listed(info, id)) ==> after[id] == entities[id]
            &&& forall|id: u32| #[trigger]
                entities.contains_key(id) ==> after[id].drawable == entities[id].drawable
        }),
    decreases info.len(),
{
    let after = after_tick(entities, info);
    if info.len() > 0 {
        let front = info.drop_last();
        a_tick_places_what_it_mentions(entities, front);
        let before = after_tick(entities, front);
        assert(before.contains_key(info.last().0) <==> entities.contains_key(info.last().0));
        assert forall|id: u32| #[trigger] after.contains_key(id) <==> entities.contains_key(
            id,
        ) by {
            assert(before.contains_key(id) <==> entities.contains_key(id));
        }
        assert forall|i: int|
            #![trigger info[i]]
            is_last_entry(info, i) && entities.contains_key(info[i].0) implies {
            &&& is_where_described(after[info[i].0], info[i].1)
            &&& moves_as_described(after[info[i].0], entities[info[i].0].drawable, info[i].1)
        } by {
            if i < front.len() {
                assert(front[i] == info[i]);
                lemma_last_in_front(info, i);
            }
        }
        assert forall|id: u32| !(#[trigger] is_listed(info, id)) implies after[id]
            == entities[id] by {
            lemma_listed_by_parts(info, id);
            assert(!is_listed(front, id));
        }
    }
}

/// What a client shows after a frame without a tick: what it showed before, but for what is gone.
/// What has appeared waits, and the controls and the scores stay.
pub proof fn a_frame_without_a_tick_only_removes(
    before: ClientWorld,
    inbox: Inbox,
    places: Seq<Vec2>,
    after: ClientWorld,
)
    requires
        inbox.tick is None,
        settled(before, inbox, places, after),
    ensures
        forall|id: u32| #[trigger]
            after.entities@.contains_key(id) <==> before.entities@.contains_key(id)
                && !inbox.deleted@.contains(id),
        forall|id: u32| #[trigger]
            after.entities@.contains_key(id) ==> after.entities@[id] == before.entities@[id],
        after.new@ == before.new@,
        after.scores@ == before.scores@,
        after.controllers@ == before.controllers@,
{
    deletions_remove_exactly_what_is_gone(before.entities@, inbox.deleted@);
}

/// What a client shows after a frame with a tick: every object that has appeared, at the place
/// given for it and as it was announced, also where the same frame says that its id is gone; and
/// of the others exactly those that were shown and are not gone, each where the tick says, or
/// unchanged where the tick does not mention it. Nothing is left waiting, and the controls and
/// the scores stay.
pub proof fn a_frame_with_a_tick_shows_everything(
    before: ClientWorld,
    inbox: Inbox,
    places: Seq<Vec2>,
    after: ClientWorld,
)
    requires
        inbox.tick is Some,
        places.len() == before.new@.len(),
        settled(before, inbox, places, after),
    ensures
        ({
            let new = before.new@;
            let info = inbox.tick->0.info@;
            &&& forall|id: u32| #[trigger]
                after.entities@.contains_key(id) <==> {
                    ||| is_new(new, id)
                    ||| before.entities@.contains_key(id) && !inbox.deleted@.contains(id)
                }
            &&& forall|i: int|
                #![trigger new[i]]
                is_last_new(new, i) ==> {
                    &&& after.entities@[new[i].id].position == places[i]
                    &&& moves_as_described(
                        after.entities@[new[i].id],
                        new[i].drawable,
                        new[i].initial_info,
                    )
                }
            &&& forall|i: int|
                #![trigger info[i]]
                is_last_entry(info, i) && !is_new(new, info[i].0) && after.entities@.contains_key(
                    info[i].0,
                ) ==> {
                    &&& is_where_described(after.entities@[info[i].0], info[i].1)
                    &&& moves_as_described(
                        after.entities@[info[i].0],
                        before.entities@[info[i].0].drawable,
                        info[i].1,
                    )
                }
            &&& forall|id: u32|
                !is_new(new, id) && !is_listed(info, id) && #[trigger] after.entities@.contains_key(
                    id,
                ) ==> after.entities@[id] == before.entities@[id]
        }),
        after.new@.len() == 0,
        after.scores@ == before.scores@,
        after.controllers@ == before.controllers@,
{
    let new = before.new@;
    let info = inbox.tick->0.info@;
    let remaining = after_deletions(before.entities@, inbox.deleted@);
    let moved = after_tick(remaining, info);
    deletions_remove_exactly_what_is_gone(before.entities@, inbox.deleted@);
    a_tick_places_what_it_mentions(remaining, info);
    every_new_object_is_shown(moved, new, places);
    assert forall|id: u32| #[trigger] after.entities@.contains_key(id) <==> {
        ||| is_new(new, id)
        ||| before.entities@.contains_key(id) && !inbox.deleted@.contains(id)
    } by {
        assert(moved.contains_key(id) <==> remaining.contains_key(id));
        assert(remaining.contains_key(id) <==> before.entities@.contains_key(id)
            && !inbox.deleted@.contains(id));
    }
    assert forall|i: int|
        #![trigger info[i]]
        is_last_entry(info, i) && !is_new(new, info[i].0) && after.entities@.contains_key(
            info[i].0,
        ) implies {
        &&& is_where_described(after.entities@[info[i].0], info[i].1)
        &&& moves_as_described(
            after.entities@[info[i].0],
            before.entities@[info[i].0].drawable,
            info[i].1,
        )
    } by {
        assert(moved.contains_key(info[i].0));
        assert(remaining.contains_key(info[i].0));
    }
    assert forall|id: u32|
        !is_new(new, id) && !is_listed(info, id) && #[trigger] after.entities@.contains_key(
            id,
        ) implies after.entities@[id] == before.entities@[id] by {
        assert(moved.contains_key(id));
        assert(remaining.contains_key(id));
    }
}

/// Each message of the server has its own effect and no other: descriptions of everything and
/// scores take effect at once, what has appeared and what is gone is kept in the order in which
/// it came in, and of several ticks the last one counts.
pub proof fn messages_keep_to_themselves(
    before: ClientWorld,
    inbox: Inbox,
    message: ServerMessage,
    after: ClientWorld,
    filled: Inbox,
)
    requires
        received(before, inbox, message, after, filled),
    ensures
        after.controllers@ == before.controllers@,
        message !is Handshake ==> after.entities@ == before.entities@,
        message !is AddRemove ==> after.new@ == before.new@ && filled.deleted@ == inbox.deleted@,
        message !is Tick ==> filled.tick == inbox.tick,
        message !is Handshake && message !is UpdateScore ==> after.scores@ == before.scores@,
        message matches ServerMessage::Handshake(msg) ==> {
            &&& after.scores@ == msg.scores@
            &&& forall|i: int|
                #![trigger msg.objects@[i]]
                is_last_entry(msg.objects@, i) ==> {
                    let object = after.entities@[msg.objects@[i].0];
                    &&& after.entities@.contains_key(msg.objects@[i].0)
                    &&& is_where_described(object, msg.objects@[i].1.1)
                    &&& moves_as_described(object, msg.objects@[i].1.0, msg.objects@[i].1.1)
                }
        },
        message matches ServerMessage::AddRemove(msg) ==> {
            &&& after.new@ == before.new@ + msg.new@
            &&& filled.deleted@ == inbox.deleted@ + msg.deleted@
        },
        message matches ServerMessage::Tick(msg) ==> filled.tick == Some(msg),
        message matches ServerMessage::UpdateScore(msg) ==> after.scores@ == msg.scores@,
{
    if let ServerMessage::Handshake(msg) = message {
        everything_described_is_shown(before.entities@, msg.objects@);
        assert forall|i: int|
            #![trigger msg.objects@[i]]
            is_last_entry(msg.objects@, i) implies after.entities@.contains_key(
            msg.objects@[i].0,
        ) by {
            assert(is_listed(msg.objects@, msg.objects@[i].0));
        }
    }
}

/// A button event sets, for every local player alike, the one control that its key is bound to,
/// down on a press and up on a release, and leaves all others. Other buttons change nothing.
pub proof fn a_button_sets_its_control(controllers: Seq<ControllerState>, ev: ButtonArgs)
    ensures
        all_after(controllers, ev).len() == controllers.len(),
        forall|i: int|
            0 <= i < controllers.len() ==> {
                let held = #[trigger] all_after(controllers, ev)[i];
                let down = ev.state is Press;
                &&& held.up == if ev.button == Button::Keyboard(Key::W) {
                    down
                } else {
                    controllers[i].up
                }
                &&& held.down == if ev.button == Button::Keyboard(Key::S) {
                    down
                } else {
                    controllers[i].down
                }
                &&& held.left == if ev.button == Button::Keyboard(Key::A) {
                    down
                } else {
                    controllers[i].left
                }
                &&& held.right == if ev.button == Button::Keyboard(Key::D) {
                    down
                } else {
                    controllers[i].right
                }
                &&& held.fire == if ev.button == Button::Keyboard(Key::Space) {
                    down
                } else {
                    controllers[i].fire
                }
            },
{
}

/// A button event asks for a change exactly where its key is bound to a control that is not yet
/// in the state of the button.
pub proof fn a_change_is_asked_for_once(state: ControllerState, ev: ButtonArgs)
    ensures
        state.after(ev).change_for(ev) is None,
        state.change_for(ev) is None <==> state.after(ev) == state,
        match state.change_for(ev) {
            Some((is_down, key)) => is_down == (ev.state is Press) && !(state.holds(key)
                == is_down),
            None => true,
        },
{
}

/// The low half of a number that fits is the number itself.
pub proof fn small_numbers_are_sent_as_they_are(n: int)
    requires
        0 <= n < 0x1_0000_0000,
    ensures
        low_half(n) == n,
{
    assert(n % 0x1_0000_0000 == n) by (nonlinear_arith)
        requires
            0 <= n < 0x1_0000_0000,
    ;
}

/// A number and another one further by 2^32 have the same low half.
pub proof fn sent_numbers_wrap_around(n: int)
    ensures
        low_half(n + 0x1_0000_0000) == low_half(n),
{
    assert((n + 0x1_0000_0000) % 0x1_0000_0000 == n % 0x1_0000_0000) by (nonlinear_arith);
}

/// A client reports the controls of each of its players, in order, each under the player's number.
pub proof fn every_player_is_reported(controllers: Seq<ControllerState>)
    requires
        controllers.len() <= 0x1_0000_0000,
    ensures
        reports_of(controllers).len() == controllers.len(),
        forall|i: int|
            0 <= i < controllers.len() ==> match #[trigger] reports_of(controllers)[i] {
                ClientMessage::ControllerUpdate(local, state) => local == i && state
                    == controllers[i],
                ClientMessage::Handshake(_) => false,
            },
{
    assert forall|i: int| 0 <= i < controllers.len() implies match #[trigger] reports_of(
        controllers,
    )[i] {
        ClientMessage::ControllerUpdate(local, state) => local == i && state == controllers[i],
        ClientMessage::Handshake(_) => false,
    } by {
        small_numbers_are_sent_as_they_are(i);
    }
}

/// The scores of the first ten teams are shown, in order; of fewer teams, all of them.
pub proof fn the_first_ten_scores_are_shown(scores: Seq<u32>)
    ensures
        scores.len() >= 10 ==> board_of(scores).len() == 10,
        scores.len() < 10 ==> board_of(scores).len() == scores.len(),
        forall|t: int| 0 <= t < board_of(scores).len() ==> #[trigger] board_of(scores)[t] == scores[t],
{
}

/// An object that wraps is drawn a second time two units to the right exactly where it is beyond
/// -0.95 on the left, two to the left exactly where it is beyond 0.95 on the right, and likewise
/// up and down; across x it comes before across y, and it is drawn nowhere else.
pub proof fn objects_are_drawn_across_the_edges_that_they_cross(object: ClientDrawable)
    ensures
        ({
            let offsets = offsets_of(object);
            let wraps = object.drawable.should_wrap;
            let lower = Double { bits: 0xbfee_6666_6666_6666 };
            let upper = Double { bits: 0x3fee_6666_6666_6666 };
            let x = object.position.x;
            let y = object.position.y;
            &&& offsets.no_duplicates()
            &&& forall|o: Offset| #[trigger]
                offsets.contains(o) <==> {
                    ||| o.x == 0 && o.y == 0
                    ||| o.x == 2 && o.y == 0 && wraps && x.below(lower)
                    ||| o.x == -2 && o.y == 0 && wraps && !x.below(lower) && upper.below(x)
                    ||| o.x == 0 && o.y == 2 && wraps && y.below(lower)
                    ||| o.x == 0 && o.y == -2 && wraps && !y.below(lower) && upper.below(y)
                }
            &&& forall|i: int, j: int|
                0 <= i < j < offsets.len() ==> (#[trigger] offsets[i]).y == 0 && (
                #[trigger] offsets[j]) != (Offset { x: 0, y: 0 })
        }),
{
    let offsets = offsets_of(object);
    assert forall|o: Offset| #[trigger] offsets.contains(o) <==> {
        ||| offsets.len() > 0 && o == offsets[0]
        ||| offsets.len() > 1 && o == offsets[1]
        ||| offsets.len() > 2 && o == offsets[2]
    } by {
        if offsets.contains(o) {
            let i = choose|i: int| 0 <= i < offsets.len() && offsets[i] == o;
            assert(i == 0 || i == 1 || i == 2);
        }
    }
}

} // verus!
