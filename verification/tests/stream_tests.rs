//! Tests of the user and shell streams.

use shell_core::streams::{new_streams, ShellStream, UserStream};
use shell_core::{ShellStreamMessage, UserStreamMessage};
use std::mem::drop;

#[test]
fn test_streams_success() {
    let (sstream, ustream): (ShellStream, UserStream) = new_streams();
    //Try to communicate (Send output)
    assert!(sstream.send(ShellStreamMessage::Output((Some(String::from("Hi there!")), None))));
    //Try to receive
    let inbox: Vec<ShellStreamMessage> = ustream.receive().unwrap();
    //Len must be 1
    assert_eq!(inbox.len(), 1);
    //Verify message is Output
    match &inbox[0] {
        ShellStreamMessage::Output((stdout, stderr)) => {
            assert_eq!(*stdout.as_ref().unwrap(), String::from("Hi there!"));
            assert!(stderr.is_none());
        },
        _ => panic!("Unexpected stream message")
    }
    //@!Try to communicate from ustream to sstream
    assert!(ustream.send(UserStreamMessage::Input(String::from("Hello!"))));
    //Try to receive
    let inbox: Vec<UserStreamMessage> = sstream.receive().unwrap();
    //Len must be 1
    assert_eq!(inbox.len(), 1);
    //Verify message is Output
    match &inbox[0] {
        UserStreamMessage::Input(stdin) => {
            assert_eq!(*stdin, String::from("Hello!"));
        },
        _ => panic!("Unexpected stream message")
    }
}

#[test]
fn test_streams_empty_inbox() {
    let (sstream, ustream): (ShellStream, UserStream) = new_streams();
    assert_eq!(sstream.receive().unwrap().len(), 0);
    assert_eq!(ustream.receive().unwrap().len(), 0);
}

#[test]
fn test_streams_sstream_hangup() {
    let (sstream, ustream): (ShellStream, UserStream) = new_streams();
    drop(sstream);
    //Should return false
    assert!(!ustream.send(UserStreamMessage::Kill));
    //Should return error
    assert!(ustream.receive().is_err());
}

#[test]
fn test_streams_ustream_hangup() {
    let (sstream, ustream): (ShellStream, UserStream) = new_streams();
    drop(ustream);
    //Should return false
    assert!(!sstream.send(ShellStreamMessage::Output((None, None))));
    //Should return error
    assert!(sstream.receive().is_err());
}

#[test]
fn streams_keep_arrival_order() {
    let (sstream, ustream): (ShellStream, UserStream) = new_streams();
    assert!(ustream.send(UserStreamMessage::Input(String::from("a"))));
    assert!(ustream.send(UserStreamMessage::Kill));
    assert!(ustream.send(UserStreamMessage::Input(String::from("b"))));
    let inbox = sstream.receive().unwrap();
    assert_eq!(inbox.len(), 3);
    assert!(matches!(&inbox[0], UserStreamMessage::Input(s) if s == "a"));
    assert!(matches!(&inbox[1], UserStreamMessage::Kill));
    assert!(matches!(&inbox[2], UserStreamMessage::Input(s) if s == "b"));
}

#[test]
fn streams_blocking_receive_takes_everything_pending() {
    let (sstream, ustream): (ShellStream, UserStream) = new_streams();
    assert!(ustream.send(UserStreamMessage::Interrupt));
    assert!(ustream.send(UserStreamMessage::Kill));
    let inbox = sstream.receive_blocking().unwrap();
    assert_eq!(inbox.len(), 2);
    drop(ustream);
    assert!(sstream.receive_blocking().is_err());
}
