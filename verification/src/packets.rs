//! The messages between server and clients.
use crate::controller::ControllerState;
use crate::double::Double;
use crate::entity::Drawable;
use crate::lists::{DeletedIds, InfoList, NewObjects, ObjectList, Scores};
use vstd::prelude::*;

verus! {

/// What a client tells the server.
#[derive(Clone, Copy, Debug, PartialEq, Eq)]
pub enum ClientMessage {
    Handshake(ClientHandshake),
    /// The controls of one of the client's players, by the player's number at the client.
    ControllerUpdate(u32, ControllerState),
}

/// The first message of a client.
#[derive(Clone, Copy, Debug, PartialEq, Eq, Structural)]
pub struct ClientHandshake {
    pub requested_players: u32,
}

/// What the server tells a client.
pub enum ServerMessage {
    Handshake(ServerHandshake),
    Tick(Tick),
    AddRemove(AddRemove),
    UpdateScore(UpdateScore),
}

/// The answer to the first message of a client: all objects and all scores.
pub struct ServerHandshake {
    pub objects: ObjectList,
    pub scores: Scores,
}

/// Where all objects are at a time.
pub struct Tick {
    pub time: Double,
    pub info: InfoList,
}

/// The objects that have appeared, and the ids of those that are gone.
pub struct AddRemove {
    pub new: NewObjects,
    pub deleted: DeletedIds,
}

/// An object that has appeared.
#[derive(Clone, Copy, Debug, PartialEq, Eq)]
pub struct NewObject {
    pub id: u32,
    pub time: Double,
    pub drawable: Drawable,
    pub initial_info: ObjectInfo,
}

/// An object that is gone.
#[derive(Clone, Copy, Debug, PartialEq, Eq, Structural)]
pub struct DeletedObject {
    pub id: u32,
}

/// The scores of all teams.
pub struct UpdateScore {
    pub scores: Scores,
}

/// Where an object is, and how it moves.
#[derive(Clone, Copy, Debug, PartialEq, Eq)]
pub struct ObjectInfo {
    pub position: (Double, Double),
    pub velocity: (Double, Double),
    pub rotation: Double,
    pub rotation_speed: Double,
}

} // verus!
