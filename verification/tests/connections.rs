use not_asteroids::nonce::{NoncedMessage, NoncedUdpStream, OutOfOrder};
use not_asteroids::transport::{
    after_write, channel_error, codec_error, ChannelError, CodecError, IoError, SendStep,
    TransportError,
};

fn busy() -> IoError<&'static str> {
    IoError { would_block: true, cause: "busy" }
}

fn broken() -> IoError<&'static str> {
    IoError { would_block: false, cause: "broken" }
}

#[test]
fn outgoing_messages_are_numbered() {
    let mut stream = NoncedUdpStream::connect();
    let NoncedMessage(first, text) = stream.send("hello");
    assert_eq!((first, text), (0, "hello"));
    let NoncedMessage(second, _) = stream.send("again");
    assert_eq!(second, 1);
    assert_eq!(stream.out_nonce, 2);
    assert_eq!(stream.in_nonce, None);
}

#[test]
fn messages_out_of_order_are_dropped() {
    let mut stream = NoncedUdpStream::connect();
    assert_eq!(stream.try_recv(NoncedMessage(0, 'a')), Ok('a'));
    assert_eq!(stream.try_recv(NoncedMessage(3, 'b')), Ok('b'));
    assert_eq!(stream.try_recv(NoncedMessage(3, 'c')), Err(OutOfOrder));
    assert_eq!(stream.try_recv(NoncedMessage(1, 'd')), Err(OutOfOrder));
    assert_eq!(stream.try_recv(NoncedMessage(4, 'e')), Ok('e'));
    assert_eq!(stream.in_nonce, Some(4));
    assert_eq!(stream.out_nonce, 0);
}

#[test]
fn what_arrives_in_order_is_all_taken() {
    let mut sender = NoncedUdpStream::connect();
    let mut receiver = NoncedUdpStream::connect();
    for i in 0..10 {
        let message = sender.send(i);
        if i % 3 != 1 {
            assert_eq!(receiver.try_recv(message), Ok(i));
        }
    }
}

#[test]
fn codec_failures_of_the_device_are_its_errors() {
    assert!(matches!(
        codec_error(CodecError::Marker(broken())),
        TransportError::Io(IoError { would_block: false, cause: "broken" })
    ));
    assert!(matches!(
        codec_error(CodecError::Data(busy())),
        TransportError::Io(IoError { would_block: true, cause: "busy" })
    ));
    assert!(matches!(codec_error::<&str>(CodecError::Other), TransportError::Other));
}

#[test]
fn an_empty_channel_may_fill_up() {
    assert!(matches!(channel_error::<()>(ChannelError::Empty), TransportError::WouldBlock));
    assert!(matches!(channel_error::<()>(ChannelError::Disconnected), TransportError::Other));
}

#[test]
fn writing_goes_on_while_the_device_is_busy() {
    assert!(matches!(after_write::<&str>(Ok(())), SendStep::Done(Ok(()))));
    assert!(matches!(after_write(Err(CodecError::Marker(busy()))), SendStep::Again));
    assert!(matches!(after_write(Err(CodecError::Data(busy()))), SendStep::Again));
    assert!(matches!(
        after_write(Err(CodecError::Data(broken()))),
        SendStep::Done(Err(TransportError::Io(IoError { cause: "broken", .. })))
    ));
    assert!(matches!(
        after_write::<&str>(Err(CodecError::Other)),
        SendStep::Done(Err(TransportError::Other))
    ));
}
