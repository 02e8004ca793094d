//! What the accept loop exchanges with the world around it.
//!
//! The loop never touches a socket, a poller, a clock or a thread itself. Each step hands out
//! [`Effect`]s, to be carried out in order, and one [`Request`], to be carried out after them and
//! answered with an [`Event`].
use crate::command::AcceptorCommand;
use crate::error::ErrorKind;
use std::io;
use vstd::prelude::*;

verus! {

/// How long a socket rests after an error, in nanoseconds.
pub const ERR_TIMEOUT: u64 = 500_000_000;

/// How long after it was asked for a `Timer` command is sent, in milliseconds.
pub const ERR_SLEEP_TIMEOUT: u32 = 525;

/// How long the loop waits before it answers a `Stop` command, in milliseconds.
pub const EXIT_TIMEOUT: u64 = 100;

/// How long the loop waits before it reports that it has started, in milliseconds.
pub const START_TIMEOUT: u64 = 25;

/// Names the service that a socket belongs to.
#[derive(Debug, Clone, Copy, PartialEq, Eq, Hash, Structural)]
pub struct Token(pub usize);

/// An accepted connection, on its way to the server.
#[derive(Debug)]
pub struct Connection<T> {
    /// The stream.
    pub io: T,
    /// The token of the socket that accepted it.
    pub token: Token,
}

/// What the accept loop reports of itself.
#[derive(Debug, Clone, Copy, PartialEq, Eq, Structural)]
pub enum ServerStatus {
    /// The loop was told to resume. This is reported before the backlog is offered to the server,
    /// so the loop stays under back-pressure if the server does not take it.
    Ready,
    /// The loop was told to pause or to end, or the server did not take a connection.
    NotReady,
}

/// What the loop knows of one listening socket.
#[derive(Debug, Clone, Copy, PartialEq, Eq, Structural)]
pub struct ServerSocketInfo {
    /// The service that the socket belongs to.
    pub token: Token,
    /// The poller knows the socket.
    pub registered: bool,
    /// After an error: the time until which the socket rests, in nanoseconds.
    pub timeout: Option<u128>,
}

/// Work that is done without an answer.
#[derive(Debug)]
pub enum Effect {
    /// Report the status.
    Status(ServerStatus),
    /// Tell the poller that the socket with this key is of no interest.
    Disable { key: usize },
    /// Send a `Timer` command to the loop after [`ERR_SLEEP_TIMEOUT`].
    ScheduleTimer,
    /// Say that errors of single connections are being skipped on the socket with this key.
    Warn { key: usize, count: usize },
    /// Release the socket with this key.
    RemoveSource { key: usize },
    /// Wait for `delay` milliseconds, then answer through the channel.
    Answer { tx: oneshot::Sender<()>, delay: u64 },
}

/// Work whose outcome decides how the loop goes on.
#[derive(Debug)]
pub enum Request<T> {
    /// Ask the poller for read events of the socket with this key. `update` says that the poller
    /// knows the socket.
    Register { key: usize, update: bool },
    /// Take the next command from the queue, without waiting.
    Receive,
    /// Wait for events of the poller.
    Wait,
    /// Accept a connection on the socket with this key.
    Accept { key: usize },
    /// Offer the connection to the server.
    Deliver { connection: Connection<T> },
    /// Nothing is left to do: the loop has ended.
    Finish,
}

/// The outcome of a [`Request`]. `now` is the time of the outcome, in nanoseconds.
#[derive(Debug)]
pub enum Event<T> {
    /// The poller took the registration.
    Registered,
    /// The poller failed.
    RegisterFailed { kind: ErrorKind, now: u64 },
    /// A command was in the queue.
    Command { command: AcceptorCommand, now: u64 },
    /// The queue was empty.
    NoCommand,
    /// The queue was empty, and nobody is left to fill it.
    Disconnected,
    /// The wait ended; these are the keys of the events, in order.
    Woken { keys: Vec<usize> },
    /// A connection was accepted.
    Accepted { io: T },
    /// No connection was there.
    NoConnection,
    /// Accepting failed.
    AcceptFailed { kind: ErrorKind, now: u64 },
    /// The server took the connection.
    Delivered,
    /// The server is unavailable and gave the connection back.
    Refused { connection: Connection<T> },
}

/// The effects of one step, and the request that follows them.
#[derive(Debug)]
pub struct Output<T> {
    pub effects: Vec<Effect>,
    pub request: Request<T>,
}

impl<T> Request<T> {
    /// The event is an outcome that the request can have. A connection that the server does not
    /// take comes back as it was.
    pub open spec fn answered_by(self, event: Event<T>) -> bool {
        match event {
            Event::Registered | Event::RegisterFailed { .. } => self is Register,
            Event::Command { .. } | Event::NoCommand | Event::Disconnected => self is Receive,
            Event::Woken { .. } => self is Wait,
            Event::Accepted { .. }
            | Event::NoConnection
            | Event::AcceptFailed { .. } => self is Accept,
            Event::Delivered => self is Deliver,
            Event::Refused { connection } => self == (Request::Deliver { connection }),
        }
    }
}

impl<T> Event<T> {
    /// The event for what the poller answered to a registration.
    pub open spec fn spec_registration(result: Result<(), io::Error>, now: u64) -> Event<T> {
        match result {
            Ok(_) => Event::Registered,
            Err(e) => Event::RegisterFailed { kind: crate::error::error_kind_of(e), now },
        }
    }

    /// The event for what the poller answered to a registration.
    pub fn registration(result: Result<(), io::Error>, now: u64) -> (event: Event<T>)
        ensures
            event == Self::spec_registration(result, now),
            result is Ok ==> event == Event::<T>::Registered,
            result matches Err(e) ==> event == (Event::<T>::RegisterFailed {
                kind: crate::error::error_kind_of(e),
                now,
            }),
    {
        match result {
            Ok(_) => Event::Registered,
            Err(e) => Event::RegisterFailed { kind: ErrorKind::of(&e), now },
        }
    }

    /// The event for what a socket answered to `accept()`.
    pub open spec fn spec_accepted(result: Result<Option<T>, io::Error>, now: u64) -> Event<T> {
        match result {
            Ok(Some(io)) => Event::Accepted { io },
            Ok(None) => Event::NoConnection,
            Err(e) => Event::AcceptFailed { kind: crate::error::error_kind_of(e), now },
        }
    }

    /// The event for what a socket answered to `accept()`.
    pub fn accepted(result: Result<Option<T>, io::Error>, now: u64) -> (event: Event<T>)
        ensures
            event == Self::spec_accepted(result, now),
            result matches Ok(Some(io)) ==> event == (Event::Accepted { io }),
            result matches Ok(None) ==> event == Event::<T>::NoConnection,
            result matches Err(e) ==> event == (Event::<T>::AcceptFailed {
                kind: crate::error::error_kind_of(e),
                now,
            }),
    {
        match result {
            Ok(Some(io)) => Event::Accepted { io },
            Ok(None) => Event::NoConnection,
            Err(e) => Event::AcceptFailed { kind: ErrorKind::of(&e), now },
        }
    }

    /// The event for a wait that brought events with these keys.
    pub open spec fn spec_woken(result: Result<(), io::Error>, keys: Vec<usize>) -> Result<
        Event<T>,
        io::Error,
    > {
        match result {
            Err(e) if !(crate::error::error_kind_of(e) is Interrupted) => Err(e),
            _ => Ok(Event::Woken { keys }),
        }
    }

    /// The event for a wait that brought events with these keys. An interrupted wait counts as
    /// one that ended; after any other error the loop cannot go on, and the error is given back.
    pub fn woken(result: Result<(), io::Error>, keys: Vec<usize>) -> (event: Result<
        Event<T>,
        io::Error,
    >)
        ensures
            event == Self::spec_woken(result, keys),
            result is Ok ==> event == Ok::<Event<T>, io::Error>(Event::Woken { keys }),
            result matches Err(e) ==> event == if crate::error::error_kind_of(e)
                == ErrorKind::Interrupted {
                Ok::<Event<T>, io::Error>(Event::Woken { keys })
            } else {
                Err(e)
            },
    {
        match result {
            Ok(_) => Ok(Event::Woken { keys }),
            Err(e) => if ErrorKind::of(&e).is_interrupted() {
                Ok(Event::Woken { keys })
            } else {
                Err(e)
            },
        }
    }
}

} // verus!
