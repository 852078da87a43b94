//! The order of the work of a tick.
use crate::world::World;
use vstd::prelude::*;

verus! {

/// A piece of the work of a tick. Between two of them the server does what takes time, chance,
/// numbers or a connection.
#[derive(Clone, Copy, Debug, PartialEq, Eq, Structural)]
pub enum Step {
    /// Line up the players whose next ship is due.
    Release,
    /// Try to let the next ship in line enter the field.
    Spawn,
    /// Let the controls act.
    Steer,
    /// Let the hits have their effect.
    Collide,
    /// Move everything.
    Advance,
    /// Accept connections.
    Accept,
    /// Listen to the clients.
    Listen,
    /// Answer those who want to become clients.
    Welcome,
    /// Tell the clients what has happened.
    Broadcast,
    /// Wait for the end of the tick.
    Rest,
}

/// The step that follows a step, given whether a ship is still in line for the field.
pub open spec fn step_after(done: Step, in_line: bool) -> Step {
    match done {
        Step::Release | Step::Spawn => if in_line {
            Step::Spawn
        } else {
            Step::Steer
        },
        Step::Steer => Step::Collide,
        Step::Collide => Step::Advance,
        Step::Advance => Step::Accept,
        Step::Accept => Step::Listen,
        Step::Listen => Step::Welcome,
        Step::Welcome => Step::Broadcast,
        Step::Broadcast => Step::Rest,
        Step::Rest => Step::Release,
    }
}

impl World {
    /// The step that follows a step. A ship that is in line tries to enter the field until it
    /// does.
    pub fn next_step(&self, done: Step) -> (step: Step)
        ensures
            step == step_after(done, self.spawning@.len() > 0),
    {
        match done {
            Step::Release | Step::Spawn => if self.spawning.len() > 0 {
                Step::Spawn
            } else {
                Step::Steer
            },
            Step::Steer => Step::Collide,
            Step::Collide => Step::Advance,
            Step::Advance => Step::Accept,
            Step::Accept => Step::Listen,
            Step::Listen => Step::Welcome,
            Step::Welcome => Step::Broadcast,
            Step::Broadcast => Step::Rest,
            Step::Rest => Step::Release,
        }
    }
}

/// The place of a step in its tick.
pub open spec fn rank(step: Step) -> nat {
    match step {
        Step::Release => 0,
        Step::Spawn => 1,
        Step::Steer => 2,
        Step::Collide => 3,
        Step::Advance => 4,
        Step::Accept => 5,
        Step::Listen => 6,
        Step::Welcome => 7,
        Step::Broadcast => 8,
        Step::Rest => 9,
    }
}

/// Within a tick the steps are taken in order. None is left out but the entering of ships when
/// no ship is in line, and only that one is repeated, while a ship is.
pub proof fn steps_are_taken_in_order(done: Step, in_line: bool)
    ensures
        done is Release && !in_line ==> step_after(done, in_line) is Steer,
        done is Spawn && in_line ==> step_after(done, in_line) is Spawn,
        done is Rest ==> step_after(done, in_line) is Release,
        !(done is Rest) && !(done is Release && !in_line) && !(done is Spawn && in_line) ==> rank(
            step_after(done, in_line),
        ) == rank(done) + 1,
{
}

} // verus!
