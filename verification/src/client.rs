//! What a client shows, and how the server's messages change it.
use crate::controller::{ButtonArgs, ControllerState};
use crate::double::{Double, Vec2};
use crate::entity::Drawable;
use crate::lists::{DeletedIds, NewObjects, Offsets, Scores};
use crate::packets::{ClientHandshake, ClientMessage, NewObject, ObjectInfo, ServerMessage, Tick};
use std::collections::HashMap;
use vstd::prelude::*;

verus! {

broadcast use vstd::std_specs::hash::group_hash_axioms;

/// 0.95, where a ship starts to cross the right or upper edge of the field
pub const UPPER_BOUND: u64 = 0x3fee_6666_6666_6666;

/// -0.95, where a ship starts to cross the left or lower edge of the field
pub const LOWER_BOUND: u64 = 0xbfee_6666_6666_6666;

/// The number of teams that have a colour.
pub const TEAM_COLOR_COUNT: usize = 10;

/// A displacement, in the units of the field.
#[derive(Clone, Copy, Debug, PartialEq, Eq, Structural)]
pub struct Offset {
    pub x: i8,
    pub y: i8,
}

/// An object as a client shows it.
#[derive(Clone, Copy, Debug, PartialEq, Eq, Structural)]
pub struct ClientDrawable {
    pub position: Vec2,
    pub velocity: Vec2,
    pub rotation: Double,
    pub rotation_speed: Double,
    pub drawable: Drawable,
}

/// The displacement along x or y by which an object is drawn a second time.
pub open spec fn far_side(coordinate: Double) -> int {
    if coordinate.below(Double { bits: LOWER_BOUND }) {
        2
    } else if (Double { bits: UPPER_BOUND }).below(coordinate) {
        -2
    } else {
        0
    }
}

/// The displacements at which an object is drawn: none, and, if it wraps, those to the far side
/// of each edge that it crosses.
pub open spec fn offsets_of(object: ClientDrawable) -> Seq<Offset> {
    let across_x = far_side(object.position.x);
    let across_y = far_side(object.position.y);
    let here = seq![Offset { x: 0, y: 0 }];
    if !object.drawable.should_wrap {
        here
    } else {
        let with_x = if across_x != 0 {
            here.push(Offset { x: across_x as i8, y: 0 })
        } else {
            here
        };
        if across_y != 0 {
            with_x.push(Offset { x: 0, y: across_y as i8 })
        } else {
            with_x
        }
    }
}

impl ClientDrawable {
    /// The displacements at which the object is drawn.
    pub fn transformations(&self) -> (offsets: Offsets)
        ensures
            offsets@ == offsets_of(*self),
    {
        let mut out = Offsets::new();
        out.push(Offset { x: 0, y: 0 });
        if self.drawable.should_wrap {
            let lower = Double { bits: LOWER_BOUND };
            let upper = Double { bits: UPPER_BOUND };
            if self.position.x.less(lower) {
                out.push(Offset { x: 2, y: 0 });
            } else if upper.less(self.position.x) {
                out.push(Offset { x: -2, y: 0 });
            }
            if self.position.y.less(lower) {
                out.push(Offset { x: 0, y: 2 });
            } else if upper.less(self.position.y) {
                out.push(Offset { x: 0, y: -2 });
            }
        }
        assert(out@ =~= offsets_of(*self));
        out
    }
}

/// An object is drawn once to three times, first where it is.
pub proof fn objects_are_drawn_where_they_are(object: ClientDrawable)
    ensures
        1 <= offsets_of(object).len() <= 3,
        offsets_of(object)[0] == (Offset { x: 0, y: 0 }),
        !object.drawable.should_wrap ==> offsets_of(object).len() == 1,
{
}

/// An object as the server describes it.
pub open spec fn shown(drawable: Drawable, info: ObjectInfo) -> ClientDrawable {
    ClientDrawable {
        position: Vec2 { x: info.position.0, y: info.position.1 },
        velocity: Vec2 { x: info.velocity.0, y: info.velocity.1 },
        rotation: info.rotation,
        rotation_speed: info.rotation_speed,
        drawable,
    }
}

/// The objects after the server has described all of its own.
pub open spec fn after_handshake(
    entities: Map<u32, ClientDrawable>,
    objects: Seq<(u32, (Drawable, ObjectInfo))>,
) -> Map<u32, ClientDrawable>
    decreases objects.len(),
{
    if objects.len() == 0 {
        entities
    } else {
        let (id, (drawable, info)) = objects.last();
        after_handshake(entities, objects.drop_last()).insert(id, shown(drawable, info))
    }
}

/// The objects after some of them have gone.
pub open spec fn after_deletions(
    entities: Map<u32, ClientDrawable>,
    deleted: Seq<u32>,
) -> Map<u32, ClientDrawable>
    decreases deleted.len(),
{
    if deleted.len() == 0 {
        entities
    } else {
        after_deletions(entities, deleted.drop_last()).remove(deleted.last())
    }
}

/// The objects after the server has said where they are. Unknown ones are ignored.
pub open spec fn after_tick(
    entities: Map<u32, ClientDrawable>,
    info: Seq<(u32, ObjectInfo)>,
) -> Map<u32, ClientDrawable>
    decreases info.len(),
{
    if info.len() == 0 {
        entities
    } else {
        let before = after_tick(entities, info.drop_last());
        let (id, place) = info.last();
        if before.contains_key(id) {
            before.insert(id, shown(before[id].drawable, place))
        } else {
            before
        }
    }
}

/// The objects after some have appeared, each at the place where it is by now.
pub open spec fn after_arrivals(
    entities: Map<u32, ClientDrawable>,
    new: Seq<NewObject>,
    places: Seq<Vec2>,
) -> Map<u32, ClientDrawable>
    decreases new.len(),
{
    if new.len() == 0 {
        entities
    } else {
        let object = new.last();
        after_arrivals(entities, new.drop_last(), places.drop_last()).insert(
            object.id,
            ClientDrawable {
                position: places.last(),
                ..shown(object.drawable, object.initial_info)
            },
        )
    }
}

/// The objects after one of them has drifted between two ticks. One that is not shown is ignored.
pub open spec fn after_drift(
    entities: Map<u32, ClientDrawable>,
    id: u32,
    position: Vec2,
    rotation: Double,
) -> Map<u32, ClientDrawable> {
    if entities.contains_key(id) {
        entities.insert(id, ClientDrawable { position, rotation, ..entities[id] })
    } else {
        entities
    }
}

/// The objects after many have drifted, one after the other.
pub open spec fn after_all_drift(
    entities: Map<u32, ClientDrawable>,
    moved: Seq<(u32, Vec2, Double)>,
) -> Map<u32, ClientDrawable>
    decreases moved.len(),
{
    if moved.len() == 0 {
        entities
    } else {
        let (id, position, rotation) = moved.last();
        after_drift(after_all_drift(entities, moved.drop_last()), id, position, rotation)
    }
}

/// What a client knows.
pub struct ClientWorld {
    /// The controls of the local players.
    pub controllers: Vec<ControllerState>,
    /// The objects shown, by id.
    pub entities: HashMap<u32, ClientDrawable>,
    pub scores: Scores,
    /// Objects that have appeared and are shown from the next tick on.
    pub new: NewObjects,
}

/// What has come in since the last frame and is yet to take effect.
pub struct Inbox {
    /// The last tick, if one came in.
    pub tick: Option<Tick>,
    pub deleted: DeletedIds,
}

impl Inbox {
    /// Nothing has come in.
    pub fn new() -> (inbox: Inbox)
        ensures
            inbox.tick is None,
            inbox.deleted@.len() == 0,
    {
        Inbox { tick: None, deleted: DeletedIds::new() }
    }
}

fn show(drawable: Drawable, info: &ObjectInfo) -> (object: ClientDrawable)
    ensures
        object == shown(drawable, *info),
{
    ClientDrawable {
        position: Vec2 { x: info.position.0, y: info.position.1 },
        velocity: Vec2 { x: info.velocity.0, y: info.velocity.1 },
        rotation: info.rotation,
        rotation_speed: info.rotation_speed,
        drawable,
    }
}

fn show_all(
    entities: &mut HashMap<u32, ClientDrawable>,
    objects: &[(u32, (Drawable, ObjectInfo))],
)
    ensures
        final(entities)@ == after_handshake(old(entities)@, objects@),
{
    let ghost start = entities@;
    assert(objects@.take(0) =~= Seq::empty());
    for i in 0..objects.len()
        invariant
            entities@ == after_handshake(start, objects@.take(i as int)),
    {
        assert(objects@.take(i + 1).drop_last() =~= objects@.take(i as int));
        assert(objects@.take(i + 1).last() == objects@[i as int]);
        let (id, (drawable, info)) = objects[i];
        entities.insert(id, show(drawable, &info));
    }
    assert(objects@.take(objects@.len() as int) =~= objects@);
}

fn delete_all(entities: &mut HashMap<u32, ClientDrawable>, deleted: &[u32])
    ensures
        final(entities)@ == after_deletions(old(entities)@, deleted@),
{
    let ghost start = entities@;
    assert(deleted@.take(0) =~= Seq::empty());
    for i in 0..deleted.len()
        invariant
            entities@ == after_deletions(start, deleted@.take(i as int)),
    {
        assert(deleted@.take(i + 1).drop_last() =~= deleted@.take(i as int));
        assert(deleted@.take(i + 1).last() == deleted@[i as int]);
        let id: u32 = deleted[i];
        let ghost before = entities@;
        entities.remove(&id);
        assert(entities@ =~= before.remove(id));
    }
    assert(deleted@.take(deleted@.len() as int) =~= deleted@);
}

fn place_all(entities: &mut HashMap<u32, ClientDrawable>, info: &[(u32, ObjectInfo)])
    ensures
        final(entities)@ == after_tick(old(entities)@, info@),
{
    let ghost start = entities@;
    assert(info@.take(0) =~= Seq::empty());
    for i in 0..info.len()
        invariant
            entities@ == after_tick(start, info@.take(i as int)),
    {
        assert(info@.take(i + 1).drop_last() =~= info@.take(i as int));
        assert(info@.take(i + 1).last() == info@[i as int]);
        let (id, place) = info[i];
        if entities.contains_key(&id) {
            let drawable = entities.get(&id).unwrap().drawable;
            entities.insert(id, show(drawable, &place));
        }
    }
    assert(info@.take(info@.len() as int) =~= info@);
}

fn add_all(entities: &mut HashMap<u32, ClientDrawable>, new: &[NewObject], places: &Vec<Vec2>)
    requires
        places@.len() == new@.len(),
    ensures
        final(entities)@ == after_arrivals(old(entities)@, new@, places@),
{
    let ghost start = entities@;
    assert(new@.take(0) =~= Seq::empty());
    for i in 0..new.len()
        invariant
            places@.len() == new@.len(),
            entities@ == after_arrivals(start, new@.take(i as int), places@.take(i as int)),
    {
        assert(new@.take(i + 1).drop_last() =~= new@.take(i as int));
        assert(new@.take(i + 1).last() == new@[i as int]);
        assert(places@.take(i + 1).drop_last() =~= places@.take(i as int));
        assert(places@.take(i + 1).last() == places@[i as int]);
        let object = new[i];
        let mut arrived = show(object.drawable, &object.initial_info);
        arrived.position = places[i];
        entities.insert(object.id, arrived);
    }
    assert(new@.take(new@.len() as int) =~= new@);
    assert(places@.take(places@.len() as int) =~= places@);
}

/// The controls of all local players after a button event.
pub open spec fn all_after(controllers: Seq<ControllerState>, ev: ButtonArgs) -> Seq<
    ControllerState,
> {
    controllers.map_values(|state: ControllerState| state.after(ev))
}

/// The low 32 bits of a number.
pub open spec fn low_half(n: int) -> u32 {
    (n % 0x1_0000_0000) as u32
}

/// The reports about some controls, in order.
pub open spec fn reports_of(controllers: Seq<ControllerState>) -> Seq<ClientMessage> {
    Seq::new(
        controllers.len(),
        |i: int| ClientMessage::ControllerUpdate(low_half(i), controllers[i]),
    )
}

/// The scores of the teams that have a colour.
pub open spec fn board_of(scores: Seq<u32>) -> Seq<u32> {
    if scores.len() <= TEAM_COLOR_COUNT {
        scores
    } else {
        scores.take(TEAM_COLOR_COUNT as int)
    }
}

/// Whether a client and its inbox are as they are after a message of the server has been taken in.
pub open spec fn received(
    before: ClientWorld,
    inbox: Inbox,
    message: ServerMessage,
    after: ClientWorld,
    filled: Inbox,
) -> bool {
    match message {
        ServerMessage::Handshake(msg) => {
            &&& after.entities@ == after_handshake(before.entities@, msg.objects@)
            &&& after.scores@ == msg.scores@
            &&& after == (ClientWorld {
                entities: after.entities,
                scores: after.scores,
                ..before
            })
            &&& filled == inbox
        },
        ServerMessage::AddRemove(msg) => {
            &&& after.new@ == before.new@ + msg.new@
            &&& after == (ClientWorld { new: after.new, ..before })
            &&& filled.deleted@ == inbox.deleted@ + msg.deleted@
            &&& filled.tick == inbox.tick
        },
        ServerMessage::Tick(msg) => {
            &&& after == before
            &&& filled == (Inbox { tick: Some(msg), ..inbox })
        },
        ServerMessage::UpdateScore(msg) => {
            &&& after.scores@ == msg.scores@
            &&& after == (ClientWorld { scores: after.scores, ..before })
            &&& filled == inbox
        },
    }
}

/// Whether a client is as it is after what has come in has taken effect.
pub open spec fn settled(
    before: ClientWorld,
    inbox: Inbox,
    places: Seq<Vec2>,
    after: ClientWorld,
) -> bool {
    let remaining = after_deletions(before.entities@, inbox.deleted@);
    &&& match inbox.tick {
        Some(tick) => {
            &&& after.entities@ == after_arrivals(
                after_tick(remaining, tick.info@),
                before.new@,
                places,
            )
            &&& after.new@.len() == 0
        },
        None => {
            &&& after.entities@ == remaining
            &&& after.new == before.new
        },
    }
    &&& after == (ClientWorld { entities: after.entities, new: after.new, ..before })
}

impl ClientWorld {
    /// A client with so many local players, before it has heard from the server.
    pub fn new(num_local_players: usize) -> (client: ClientWorld)
        ensures
            client.controllers@ == Seq::new(
                num_local_players as nat,
                |i: int| ControllerState::idle(),
            ),
            client.entities@ == Map::<u32, ClientDrawable>::empty(),
            client.scores@.len() == 0,
            client.new@.len() == 0,
    {
        let mut controllers: Vec<ControllerState> = Vec::new();
        for i in 0..num_local_players
            invariant
                controllers@ == Seq::new(i as nat, |j: int| ControllerState::idle()),
        {
            controllers.push(ControllerState::default());
            assert(controllers@ =~= Seq::new((i + 1) as nat, |j: int| ControllerState::idle()));
        }
        ClientWorld {
            controllers,
            entities: HashMap::new(),
            scores: Scores::from_vec(Vec::new()),
            new: NewObjects::new(),
        }
    }

    /// The first message to the server: how many players there are.
    pub fn greeting(&self) -> (message: ClientMessage)
        ensures
            message == ClientMessage::Handshake(
                ClientHandshake { requested_players: low_half(self.controllers@.len() as int) },
            ),
    {
        let count: u64 = self.controllers.len() as u64 % 0x1_0000_0000;
        ClientMessage::Handshake(ClientHandshake { requested_players: count as u32 })
    }

    /// The reports to the server about the controls of all local players.
    pub fn reports(&self) -> (messages: Vec<ClientMessage>)
        ensures
            messages@ == reports_of(self.controllers@),
    {
        let mut messages: Vec<ClientMessage> = Vec::new();
        for i in 0..self.controllers.len()
            invariant
                messages@ == Seq::new(
                    i as nat,
                    |j: int| ClientMessage::ControllerUpdate(low_half(j), self.controllers@[j]),
                ),
        {
            let id: u64 = i as u64 % 0x1_0000_0000;
            messages.push(ClientMessage::ControllerUpdate(id as u32, self.controllers[i]));
            assert(messages@ =~= Seq::new(
                (i + 1) as nat,
                |j: int| ClientMessage::ControllerUpdate(low_half(j), self.controllers@[j]),
            ));
        }
        assert(messages@ =~= reports_of(self.controllers@));
        messages
    }

    /// Lets a button event act on the controls of all local players.
    pub fn press(&mut self, ev: &ButtonArgs)
        ensures
            final(self).controllers@ == all_after(old(self).controllers@, *ev),
            *final(self) == (ClientWorld { controllers: final(self).controllers, ..*old(self) }),
    {
        let ghost start = self.controllers@;
        let count: usize = self.controllers.len();
        for i in 0..count
            invariant
                count == start.len(),
                self.controllers@.len() == count,
                *self == (ClientWorld { controllers: self.controllers, ..*old(self) }),
                forall|j: int| 0 <= j < i ==> #[trigger] self.controllers@[j] == start[j].after(*ev),
                forall|j: int| i <= j < count ==> #[trigger] self.controllers@[j] == start[j],
        {
            let mut controller = self.controllers[i];
            if let Some((is_down, game_key)) = controller.to_game_key(ev) {
                controller.update(game_key, is_down);
            }
            self.controllers.set(i, controller);
        }
        assert(self.controllers@ =~= all_after(start, *ev));
    }

    /// Takes in a message of the server. Descriptions of everything and scores take effect at
    /// once; the rest takes effect when the frame is settled.
    pub fn receive(&mut self, inbox: &mut Inbox, message: ServerMessage)
        ensures
            received(*old(self), *old(inbox), message, *final(self), *final(inbox)),
    {
        match message {
            ServerMessage::Handshake(msg) => {
                show_all(&mut self.entities, msg.objects.as_slice());
                self.scores = msg.scores;
            },
            ServerMessage::AddRemove(msg) => {
                let ghost new_before = self.new@;
                let ghost deleted_before = inbox.deleted@;
                let arrivals = msg.new.as_slice();
                let deletions = msg.deleted.as_slice();
                for i in 0..arrivals.len()
                    invariant
                        self.new@ == new_before + arrivals@.take(i as int),
                        *self == (ClientWorld { new: self.new, ..*old(self) }),
                {
                    self.new.push(arrivals[i]);
                    assert(self.new@ =~= new_before + arrivals@.take(i + 1));
                }
                for i in 0..deletions.len()
                    invariant
                        inbox.deleted@ == deleted_before + deletions@.take(i as int),
                        inbox.tick == old(inbox).tick,
                {
                    inbox.deleted.push(deletions[i]);
                    assert(inbox.deleted@ =~= deleted_before + deletions@.take(i + 1));
                }
                assert(arrivals@.take(arrivals@.len() as int) =~= arrivals@);
                assert(deletions@.take(deletions@.len() as int) =~= deletions@);
            },
            ServerMessage::Tick(msg) => {
                inbox.tick = Some(msg);
            },
            ServerMessage::UpdateScore(msg) => {
                self.scores = msg.scores;
            },
        }
    }

    /// Lets what has come in take effect: what is gone is no longer shown; then, if a tick came
    /// in, all objects go where it says, and the objects that have appeared are shown, each at
    /// its place in `places`.
    pub fn settle(&mut self, inbox: Inbox, places: &Vec<Vec2>)
        requires
            inbox.tick is Some ==> places@.len() == old(self).new@.len(),
        ensures
            settled(*old(self), inbox, places@, *final(self)),
    {
        delete_all(&mut self.entities, inbox.deleted.as_slice());
        if let Some(tick) = inbox.tick {
            place_all(&mut self.entities, tick.info.as_slice());
            let mut new = NewObjects::new();
            std::mem::swap(&mut new, &mut self.new);
            add_all(&mut self.entities, new.as_slice(), places);
        }
    }

    /// The ids of all objects shown, each once.
    pub fn shown_ids(&self) -> (ids: Vec<u32>)
        ensures
            ids@.no_duplicates(),
            ids@.to_set() == self.entities@.dom(),
    {
        let mut ids: Vec<u32> = Vec::new();
        let ghost keys: Seq<u32> = vstd::std_specs::iter::IteratorSpec::remaining(
            &self.entities.keys(),
        ).unref();
        for id in iter: self.entities.keys()
            invariant
                iter.seq().unref() == keys,
                ids@ == keys.take(iter.index() as int),
        {
            let ghost n = iter.index() as int;
            assert(*id == keys[n]);
            ids.push(*id);
            assert(ids@ =~= keys.take(n + 1));
        }
        assert(keys.take(keys.len() as int) =~= keys);
        ids
    }

    /// Moves an object between two ticks. One that is not shown is ignored.
    pub fn drift(&mut self, id: u32, position: Vec2, rotation: Double)
        ensures
            final(self).entities@ == after_drift(old(self).entities@, id, position, rotation),
            *final(self) == (ClientWorld { entities: final(self).entities, ..*old(self) }),
    {
        if self.entities.contains_key(&id) {
            let mut object = *self.entities.get(&id).unwrap();
            object.position = position;
            object.rotation = rotation;
            self.entities.insert(id, object);
        }
    }

    /// Moves many objects between two ticks, one after the other. Those that are not shown are
    /// ignored.
    pub fn drift_all(&mut self, moved: &Vec<(u32, Vec2, Double)>)
        ensures
            final(self).entities@ == after_all_drift(old(self).entities@, moved@),
            *final(self) == (ClientWorld { entities: final(self).entities, ..*old(self) }),
    {
        let ghost start = self.entities@;
        assert(moved@.take(0) =~= Seq::empty());
        for i in 0..moved.len()
            invariant
                self.entities@ == after_all_drift(start, moved@.take(i as int)),
                *self == (ClientWorld { entities: self.entities, ..*old(self) }),
        {
            assert(moved@.take(i + 1).drop_last() =~= moved@.take(i as int));
            assert(moved@.take(i + 1).last() == moved@[i as int]);
            let (id, position, rotation) = moved[i];
            self.drift(id, position, rotation);
        }
        assert(moved@.take(moved@.len() as int) =~= moved@);
    }

    /// The scores that are shown: those of the teams that have a colour.
    pub fn scoreboard(&self) -> (board: Vec<u32>)
        ensures
            board@ == board_of(self.scores@),
    {
        let scores = self.scores.as_slice();
        let mut board: Vec<u32> = Vec::new();
        let mut i: usize = 0;
        while i < scores.len() && i < TEAM_COLOR_COUNT
            invariant
                i <= scores@.len(),
                i <= TEAM_COLOR_COUNT,
                board@ == scores@.take(i as int),
            decreases scores@.len() - i,
        {
            board.push(scores[i]);
            assert(board@ =~= scores@.take(i + 1));
            i = i + 1;
        }
        assert(scores@.take(scores@.len() as int) =~= scores@);
        board
    }
}

/// Whether no id occurs twice.
pub open spec fn ids_differ<T>(items: Seq<(u32, T)>) -> bool {
    forall|i: int, j: int|
        0 <= i < j < items.len() ==> (#[trigger] items[i]).0 != (#[trigger] items[j]).0
}

/// After the server has described everything, the client shows every object as described, and
/// what it showed before and was not described stays.
pub proof fn handshake_shows_everything(
    entities: Map<u32, ClientDrawable>,
    objects: Seq<(u32, (Drawable, ObjectInfo))>,
)
    requires
        ids_differ(objects),
    ensures
        forall|i: int|
            0 <= i < objects.len() ==> {
                &&& after_handshake(entities, objects).contains_key((#[trigger] objects[i]).0)
                &&& after_handshake(entities, objects)[objects[i].0] == shown(
                    objects[i].1.0,
                    objects[i].1.1,
                )
            },
        forall|id: u32|
            (forall|i: int| 0 <= i < objects.len() ==> (#[trigger] objects[i]).0 != id) ==> {
                &&& #[trigger] after_handshake(entities, objects).contains_key(id)
                    == entities.contains_key(id)
                &&& entities.contains_key(id) ==> after_handshake(entities, objects)[id]
                    == entities[id]
            },
    decreases objects.len(),
{
    if objects.len() > 0 {
        let front = objects.drop_last();
        assert forall|i: int, j: int| 0 <= i < j < front.len() implies (#[trigger] front[i]).0 != (
        #[trigger] front[j]).0 by {
            assert(front[i] == objects[i] && front[j] == objects[j]);
        }
        handshake_shows_everything(entities, front);
        let after = after_handshake(entities, objects);
        let last = objects.last();
        assert forall|i: int| 0 <= i < objects.len() implies {
            &&& after.contains_key((#[trigger] objects[i]).0)
            &&& after[objects[i].0] == shown(objects[i].1.0, objects[i].1.1)
        } by {
            if i < front.len() {
                assert(front[i] == objects[i]);
                assert(objects[i].0 != objects[objects.len() - 1].0);
            }
        }
        assert forall|id: u32|
            (forall|i: int| 0 <= i < objects.len() ==> (#[trigger] objects[i]).0 != id) implies {
            &&& #[trigger] after.contains_key(id) == entities.contains_key(id)
            &&& entities.contains_key(id) ==> after[id] == entities[id]
        } by {
            assert(objects[objects.len() - 1].0 != id);
            assert forall|i: int| 0 <= i < front.len() implies (#[trigger] front[i]).0 != id by {
                assert(front[i] == objects[i]);
            }
            assert(after_handshake(entities, front).contains_key(id) == entities.contains_key(id));
        }
    }
}

/// A tick shows no new object and hides none, and changes no object's looks. Every object that
/// it mentions and the client shows goes where the tick says.
pub proof fn tick_only_moves(entities: Map<u32, ClientDrawable>, info: Seq<(u32, ObjectInfo)>)
    requires
        ids_differ(info),
    ensures
        after_tick(entities, info).dom() == entities.dom(),
        forall|id: u32| #[trigger]
            entities.contains_key(id) ==> after_tick(entities, info)[id].drawable
                == entities[id].drawable,
        forall|i: int|
            0 <= i < info.len() && entities.contains_key((#[trigger] info[i]).0) ==> after_tick(
                entities,
                info,
            )[info[i].0] == shown(entities[info[i].0].drawable, info[i].1),
    decreases info.len(),
{
    if info.len() > 0 {
        let front = info.drop_last();
        assert forall|i: int, j: int| 0 <= i < j < front.len() implies (#[trigger] front[i]).0 != (
        #[trigger] front[j]).0 by {
            assert(front[i] == info[i] && front[j] == info[j]);
        }
        tick_only_moves(entities, front);
        let before = after_tick(entities, front);
        let after = after_tick(entities, info);
        assert(after.dom() =~= entities.dom());
        assert forall|i: int|
            0 <= i < info.len() && entities.contains_key(
                (#[trigger] info[i]).0,
            ) implies after[info[i].0] == shown(entities[info[i].0].drawable, info[i].1) by {
            assert(before.dom().contains(info[i].0));
            if i < front.len() {
                assert(front[i] == info[i]);
                assert(info[i].0 != info[info.len() - 1].0);
            }
        }
        assert forall|id: u32| #[trigger] entities.contains_key(id) implies after[id].drawable
            == entities[id].drawable by {
            assert(before.dom().contains(id));
        }
    }
}

/// What the server says is gone is gone, and nothing else.
pub proof fn deletions_remove_exactly_what_is_gone(
    entities: Map<u32, ClientDrawable>,
    deleted: Seq<u32>,
)
    ensures
        forall|id: u32| #[trigger]
            after_deletions(entities, deleted).contains_key(id) <==> entities.contains_key(id)
                && !deleted.contains(id),
        forall|id: u32| #[trigger]
            after_deletions(entities, deleted).contains_key(id) ==> after_deletions(
                entities,
                deleted,
            )[id] == entities[id],
    decreases deleted.len(),
{
    if deleted.len() > 0 {
        let front = deleted.drop_last();
        deletions_remove_exactly_what_is_gone(entities, front);
        let before = after_deletions(entities, front);
        assert forall|id: u32| #[trigger]
            after_deletions(entities, deleted).contains_key(id) <==> entities.contains_key(id)
                && !deleted.contains(id) by {
            assert(before.contains_key(id) <==> entities.contains_key(id) && !front.contains(id));
            if front.contains(id) {
                let i = choose|i: int| 0 <= i < front.len() && front[i] == id;
                assert(deleted[i] == id);
            }
            if deleted.contains(id) {
                let i = choose|i: int| 0 <= i < deleted.len() && deleted[i] == id;
                if i < front.len() {
                    assert(front[i] == id);
                }
            }
            assert(deleted[deleted.len() - 1] == deleted.last());
        }
        assert forall|id: u32| #[trigger]
            after_deletions(entities, deleted).contains_key(id) implies after_deletions(
            entities,
            deleted,
        )[id] == entities[id] by {
            assert(before.contains_key(id));
        }
    }
}

/// Whether some moves are about exactly the objects that are shown, each of them once.
pub open spec fn moves_are_of(
    entities: Map<u32, ClientDrawable>,
    moved: Seq<(u32, Vec2, Double)>,
) -> bool {
    &&& forall|i: int| 0 <= i < moved.len() ==> entities.contains_key((#[trigger] moved[i]).0)
    &&& forall|i: int, j: int|
        0 <= i < j < moved.len() ==> (#[trigger] moved[i]).0 != (#[trigger] moved[j]).0
    &&& forall|id: u32| #[trigger]
        entities.contains_key(id) ==> exists|i: int|
            0 <= i < moved.len() && (#[trigger] moved[i]).0 == id
}

proof fn lemma_drift_of_some(
    entities: Map<u32, ClientDrawable>,
    moved: Seq<(u32, Vec2, Double)>,
)
    requires
        forall|i: int, j: int|
            0 <= i < j < moved.len() ==> (#[trigger] moved[i]).0 != (#[trigger] moved[j]).0,
    ensures
        after_all_drift(entities, moved).dom() == entities.dom(),
        forall|i: int|
            0 <= i < moved.len() && entities.contains_key((#[trigger] moved[i]).0)
                ==> after_all_drift(entities, moved)[moved[i].0] == (ClientDrawable {
                position: moved[i].1,
                rotation: moved[i].2,
                ..entities[moved[i].0]
            }),
        forall|id: u32| #[trigger]
            entities.contains_key(id) && (forall|i: int|
                0 <= i < moved.len() ==> (#[trigger] moved[i]).0 != id) ==> after_all_drift(
                entities,
                moved,
            )[id] == entities[id],
    decreases moved.len(),
{
    if moved.len() > 0 {
        let front = moved.drop_last();
        let last = moved.last();
        assert forall|i: int, j: int| 0 <= i < j < front.len() implies (#[trigger] front[i]).0 != (
        #[trigger] front[j]).0 by {
            assert(front[i] == moved[i] && front[j] == moved[j]);
        }
        lemma_drift_of_some(entities, front);
        let before = after_all_drift(entities, front);
        let after = after_all_drift(entities, moved);
        assert(after.dom() =~= entities.dom());
        assert forall|i: int|
            0 <= i < moved.len() && entities.contains_key(
                (#[trigger] moved[i]).0,
            ) implies after[moved[i].0] == (ClientDrawable {
            position: moved[i].1,
            rotation: moved[i].2,
            ..entities[moved[i].0]
        }) by {
            assert(before.dom().contains(moved[i].0));
            if i < front.len() {
                assert(front[i] == moved[i]);
                assert(moved[i].0 != moved[moved.len() - 1].0);
            } else {
                assert forall|j: int| 0 <= j < front.len() implies (#[trigger] front[j]).0
                    != last.0 by {
                    assert(front[j] == moved[j]);
                    assert(moved[j].0 != moved[moved.len() - 1].0);
                }
            }
        }
        assert forall|id: u32| #[trigger]
            entities.contains_key(id) && (forall|i: int|
                0 <= i < moved.len() ==> (#[trigger] moved[i]).0 != id) implies after[id]
            == entities[id] by {
            assert(moved[moved.len() - 1].0 != id);
            assert forall|j: int| 0 <= j < front.len() implies (#[trigger] front[j]).0 != id by {
                assert(front[j] == moved[j]);
            }
        }
    }
}

/// Where the moves are about exactly the objects that are shown, drifting moves each of them
/// once: every object has its new place and rotation, keeps its velocity, its rotation speed and
/// its looks, and no object comes or goes.
pub proof fn drifting_moves_everything_once(
    entities: Map<u32, ClientDrawable>,
    moved: Seq<(u32, Vec2, Double)>,
)
    requires
        moves_are_of(entities, moved),
    ensures
        after_all_drift(entities, moved).dom() == entities.dom(),
        forall|i: int|
            0 <= i < moved.len() ==> after_all_drift(entities, moved)[(#[trigger] moved[i]).0] == (
            ClientDrawable {
                position: moved[i].1,
                rotation: moved[i].2,
                ..entities[moved[i].0]
            }),
        forall|id: u32| #[trigger]
            entities.contains_key(id) ==> {
                let object = after_all_drift(entities, moved)[id];
                &&& object == (ClientDrawable {
                    position: object.position,
                    rotation: object.rotation,
                    ..entities[id]
                })
                &&& exists|i: int|
                    0 <= i < moved.len() && (#[trigger] moved[i]) == (
                        id,
                        object.position,
                        object.rotation,
                    )
            },
{
    lemma_drift_of_some(entities, moved);
    assert forall|id: u32| #[trigger] entities.contains_key(id) implies {
        let object = after_all_drift(entities, moved)[id];
        &&& object == (ClientDrawable {
            position: object.position,
            rotation: object.rotation,
            ..entities[id]
        })
        &&& exists|i: int|
            0 <= i < moved.len() && (#[trigger] moved[i]) == (
                id,
                object.position,
                object.rotation,
            )
    } by {
        let i = choose|i: int| 0 <= i < moved.len() && (#[trigger] moved[i]).0 == id;
        assert(moved[i].0 == id);
    }
}

} // verus!
