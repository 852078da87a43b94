//! What to make of the outcome of reading and writing messages.
use vstd::prelude::*;

verus! {

/// An error of the device under a connection.
#[derive(Debug)]
pub struct IoError<E> {
    /// Whether the device was only busy.
    pub would_block: bool,
    pub cause: E,
}

/// How encoding or decoding a message fails.
#[derive(Debug)]
pub enum CodecError<E> {
    /// The device failed at the marker of a value.
    Marker(IoError<E>),
    /// The device failed at the data of a value.
    Data(IoError<E>),
    /// The message itself is at fault.
    Other,
}

/// How reading from a local channel fails.
#[derive(Clone, Copy, Debug, PartialEq, Eq, Structural)]
pub enum ChannelError {
    Empty,
    Disconnected,
}

/// How sending or receiving a message fails.
#[derive(Debug)]
pub enum TransportError<E> {
    /// The device failed.
    Io(IoError<E>),
    /// Nothing is there yet.
    WouldBlock,
    /// Something else failed.
    Other,
}

/// What to do after an attempt to write a message.
#[derive(Debug)]
pub enum SendStep<E> {
    /// Write the message again.
    Again,
    /// The message has been sent, or cannot be.
    Done(Result<(), TransportError<E>>),
}

/// The error that a failure of the codec stands for: that of the device, if the device failed.
pub open spec fn spec_codec_error<E>(e: CodecError<E>) -> TransportError<E> {
    match e {
        CodecError::Marker(io) => TransportError::Io(io),
        CodecError::Data(io) => TransportError::Io(io),
        CodecError::Other => TransportError::Other,
    }
}

/// The error that a failure of the codec stands for.
pub fn codec_error<E>(e: CodecError<E>) -> (error: TransportError<E>)
    ensures
        error == spec_codec_error(e),
{
    match e {
        CodecError::Marker(io) => TransportError::Io(io),
        CodecError::Data(io) => TransportError::Io(io),
        CodecError::Other => TransportError::Other,
    }
}

/// The error that a failure of a local channel stands for: an empty one may fill up later, one
/// without a sender will not.
pub fn channel_error<E>(e: ChannelError) -> (error: TransportError<E>)
    ensures
        error == match e {
            ChannelError::Empty => TransportError::<E>::WouldBlock,
            ChannelError::Disconnected => TransportError::Other,
        },
{
    match e {
        ChannelError::Disconnected => TransportError::Other,
        ChannelError::Empty => TransportError::WouldBlock,
    }
}

/// Whether a message is to be written again: the device was only busy.
pub open spec fn is_to_be_repeated<E>(outcome: Result<(), CodecError<E>>) -> bool {
    match outcome {
        Err(CodecError::Marker(io)) => io.would_block,
        Err(CodecError::Data(io)) => io.would_block,
        _ => false,
    }
}

/// What follows an attempt to write a message.
pub open spec fn step_after_write<E>(outcome: Result<(), CodecError<E>>) -> SendStep<E> {
    if is_to_be_repeated(outcome) {
        SendStep::Again
    } else {
        SendStep::Done(
            match outcome {
                Ok(()) => Ok(()),
                Err(e) => Err(spec_codec_error(e)),
            },
        )
    }
}

/// Decides what follows an attempt to write a message that has to arrive: as long as the device
/// is only busy the message is written again.
pub fn after_write<E>(outcome: Result<(), CodecError<E>>) -> (step: SendStep<E>)
    ensures
        step == step_after_write(outcome),
{
    match outcome {
        Ok(()) => SendStep::Done(Ok(())),
        Err(e) => {
            let error = codec_error(e);
            if let TransportError::Io(io) = &error {
                if io.would_block {
                    return SendStep::Again;
                }
            }
            SendStep::Done(Err(error))
        },
    }
}

} // verus!
