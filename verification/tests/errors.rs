use ntex_accept::protocol::Event;
use ntex_accept::{connection_error, ErrorKind};
use std::io;

fn error(kind: io::ErrorKind) -> io::Error {
    io::Error::from(kind)
}

#[test]
fn per_connection_errors() {
    assert!(connection_error(&error(io::ErrorKind::ConnectionRefused)));
    assert!(connection_error(&error(io::ErrorKind::ConnectionAborted)));
    assert!(connection_error(&error(io::ErrorKind::ConnectionReset)));
}

#[test]
fn other_errors_are_not_per_connection() {
    assert!(!connection_error(&error(io::ErrorKind::WouldBlock)));
    assert!(!connection_error(&error(io::ErrorKind::Interrupted)));
    assert!(!connection_error(&error(io::ErrorKind::NotConnected)));
    assert!(!connection_error(&error(io::ErrorKind::BrokenPipe)));
    assert!(!connection_error(&io::Error::new(io::ErrorKind::Other, "no more files")));
    // EMFILE
    assert!(!connection_error(&io::Error::from_raw_os_error(24)));
}

#[test]
fn connection_error_of_os_codes() {
    // ECONNABORTED, ECONNRESET, ECONNREFUSED
    assert!(connection_error(&io::Error::from_raw_os_error(103)));
    assert!(connection_error(&io::Error::from_raw_os_error(104)));
    assert!(connection_error(&io::Error::from_raw_os_error(111)));
}

#[test]
fn kinds_of_errors() {
    assert_eq!(
        ErrorKind::of(&error(io::ErrorKind::ConnectionRefused)),
        ErrorKind::ConnectionRefused
    );
    assert_eq!(
        ErrorKind::of(&error(io::ErrorKind::ConnectionAborted)),
        ErrorKind::ConnectionAborted
    );
    assert_eq!(
        ErrorKind::of(&error(io::ErrorKind::ConnectionReset)),
        ErrorKind::ConnectionReset
    );
    assert_eq!(ErrorKind::of(&error(io::ErrorKind::WouldBlock)), ErrorKind::WouldBlock);
    assert_eq!(ErrorKind::of(&error(io::ErrorKind::Interrupted)), ErrorKind::Interrupted);
    assert_eq!(ErrorKind::of(&error(io::ErrorKind::TimedOut)), ErrorKind::Other);
}

#[test]
fn registration_outcomes() {
    assert!(matches!(Event::<u32>::registration(Ok(()), 5), Event::Registered));
    assert!(matches!(
        Event::<u32>::registration(Err(error(io::ErrorKind::WouldBlock)), 5),
        Event::RegisterFailed { kind: ErrorKind::WouldBlock, now: 5 }
    ));
    assert!(matches!(
        Event::<u32>::registration(Err(error(io::ErrorKind::AlreadyExists)), 6),
        Event::RegisterFailed { kind: ErrorKind::Other, now: 6 }
    ));
}

#[test]
fn accept_outcomes() {
    assert!(matches!(Event::accepted(Ok(Some(7u32)), 1), Event::Accepted { io: 7 }));
    assert!(matches!(Event::<u32>::accepted(Ok(None), 1), Event::NoConnection));
    assert!(matches!(
        Event::<u32>::accepted(Err(error(io::ErrorKind::ConnectionReset)), 9),
        Event::AcceptFailed { kind: ErrorKind::ConnectionReset, now: 9 }
    ));
}

#[test]
fn wait_outcomes() {
    match Event::<u32>::woken(Ok(()), vec![3, 1]) {
        Ok(Event::Woken { keys }) => assert_eq!(keys, vec![3, 1]),
        _ => panic!("the wait ended"),
    }
    match Event::<u32>::woken(Err(error(io::ErrorKind::Interrupted)), vec![]) {
        Ok(Event::Woken { keys }) => assert!(keys.is_empty()),
        _ => panic!("an interrupted wait is one that ended"),
    }
    match Event::<u32>::woken(Err(error(io::ErrorKind::InvalidInput)), vec![2]) {
        Err(e) => assert_eq!(e.kind(), io::ErrorKind::InvalidInput),
        Ok(_) => panic!("the loop cannot go on"),
    }
}
