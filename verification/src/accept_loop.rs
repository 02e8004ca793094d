//! The settings of an accept loop, before it runs.
use crate::accept::Accept;
use crate::model::AcceptState;
use crate::notify::{AcceptNotify, NotifyState};
use crate::protocol::Token;
use vstd::prelude::*;

verus! {

/// `oneshot::Receiver` is carried through the library unopened.
#[verifier::external_type_specification]
#[verifier::external_body]
#[verifier::reject_recursive_types(T)]
pub struct ExOneshotReceiver<T>(oneshot::Receiver<T>);

/// The two are the ends of one channel, as `oneshot::channel` made it.
pub uninterp spec fn same_channel(tx: oneshot::Sender<()>, rx: oneshot::Receiver<()>) -> bool;

/// Calls `oneshot::channel`, which allocates a channel for one message and gives its two ends.
/// Claimed of the call: both ends belong to the one channel that it allocated.
#[verifier::external_body]
fn channel() -> (ends: (oneshot::Sender<()>, oneshot::Receiver<()>))
    ensures
        same_channel(ends.0, ends.1),
{
    oneshot::channel()
}

/// An accept loop that has not been started.
#[derive(Debug)]
pub struct AcceptLoop {
    name: String,
    testing: bool,
    reporting: bool,
    started: bool,
    notify: AcceptNotify,
}

/// The contents of an [`AcceptLoop`].
#[verifier::ext_equal]
pub struct LoopState {
    /// The name of the loop, also that of its thread.
    pub name: Seq<char>,
    /// Whoever stops the loop does not want to wait for it.
    pub testing: bool,
    /// Somebody wants to know the status.
    pub reporting: bool,
    /// The loop was started.
    pub started: bool,
    /// What the senders of commands share.
    pub notify: NotifyState,
}

impl View for AcceptLoop {
    type V = LoopState;

    closed spec fn view(&self) -> LoopState {
        LoopState {
            name: self.name@,
            testing: self.testing,
            reporting: self.reporting,
            started: self.started,
            notify: self.notify@,
        }
    }
}

/// A started loop.
#[derive(Debug)]
pub struct Start<T> {
    /// The name of the thread that runs the loop.
    pub name: String,
    /// The loop.
    pub accept: Accept<T>,
    /// Receives a message when the loop has started.
    pub started: oneshot::Receiver<()>,
}

impl LoopState {
    /// The settings of a new loop.
    pub open spec fn initial() -> LoopState {
        LoopState {
            name: "ntex:accept"@,
            testing: false,
            reporting: false,
            started: false,
            notify: NotifyState { name: "ntex:accept"@, seq: 0 },
        }
    }

    /// The settings after one more command was sent.
    pub open spec fn sent(self) -> LoopState {
        LoopState { notify: self.notify.sent(), ..self }
    }

    /// The settings under another server name. The loop and its senders have the same name.
    pub open spec fn named(self, server: Seq<char>) -> LoopState {
        LoopState {
            name: server + ":accept"@,
            notify: NotifyState { name: server + ":accept"@, ..self.notify },
            ..self
        }
    }
}

impl Default for AcceptLoop {
    fn default() -> (accept_loop: AcceptLoop)
        ensures
            accept_loop@ == LoopState::initial(),
            accept_loop@.name == "ntex:accept"@,
            accept_loop@.notify.name == "ntex:accept"@,
            accept_loop@.notify.seq == 0,
            !accept_loop@.testing,
            !accept_loop@.reporting,
            !accept_loop@.started,
    {
        Self::new()
    }
}

impl AcceptLoop {
    /// Create accept loop
    pub fn new() -> (accept_loop: AcceptLoop)
        ensures
            accept_loop@ == LoopState::initial(),
            accept_loop@.name == "ntex:accept"@,
            accept_loop@.notify.name == "ntex:accept"@,
            accept_loop@.notify.seq == 0,
            !accept_loop@.testing,
            !accept_loop@.reporting,
            !accept_loop@.started,
    {
        let name = String::from_str("ntex:accept");
        AcceptLoop {
            notify: AcceptNotify::new(name.clone()),
            name,
            testing: false,
            reporting: false,
            started: false,
        }
    }

    /// Set server name.
    ///
    /// Name is used for worker thread name
    pub fn name(&mut self, name: &str)
        ensures
            final(self)@ == old(self)@.named(name@),
            final(self)@.name == name@ + ":accept"@,
            final(self)@.notify.name == name@ + ":accept"@,
            final(self)@.notify.seq == old(self)@.notify.seq,
            final(self)@.testing == old(self)@.testing,
            final(self)@.reporting == old(self)@.reporting,
            final(self)@.started == old(self)@.started,
    {
        self.name = String::from_str(name).concat(":accept");
        self.notify.set_name(self.name.clone());
    }

    /// Get notification api for the loop
    pub fn notify(&mut self) -> (notify: &mut AcceptNotify)
        ensures
            notify@ == old(self)@.notify,
            final(self)@ == (LoopState { notify: final(notify)@, ..old(self)@ }),
    {
        &mut self.notify
    }

    /// From now on the status is reported.
    pub fn set_status_handler(&mut self)
        ensures
            final(self)@ == (LoopState { reporting: true, ..old(self)@ }),
    {
        self.reporting = true;
    }

    /// A `Stop` command is to be answered without delay.
    pub fn testing(&mut self)
        ensures
            final(self)@ == (LoopState { testing: true, ..old(self)@ }),
    {
        self.testing = true;
    }

    /// Tells whether the loop was started.
    pub fn is_started(&self) -> (r: bool)
        ensures
            r == self@.started,
    {
        self.started
    }

    /// Start accept loop, for sockets of the given services. A loop is started once.
    pub fn start<T>(&mut self, socks: Vec<Token>) -> (start: Start<T>)
        requires
            !old(self)@.started,
        ensures
            final(self)@ == (LoopState { started: true, ..old(self)@ }),
            start.name@ == old(self)@.name,
            start.accept@.starter is Some,
            start.accept@ == AcceptState::<T>::created(
                start.accept@.starter->0,
                socks@,
                old(self)@.testing,
                old(self)@.reporting,
            ),
            start.accept@.wf(),
            start.accept@.sockets.len() == socks@.len(),
            forall|i: int|
                0 <= i < socks@.len() ==> (#[trigger] start.accept@.sockets[i]).token == socks@[i],
            start.accept@.testing == old(self)@.testing,
            start.accept@.reporting == old(self)@.reporting,
            same_channel(start.accept@.starter->0, start.started),
    {
        let (tx, rx) = channel();
        self.started = true;
        Start {
            name: self.name.clone(),
            accept: Accept::new(tx, socks, self.testing, self.reporting),
            started: rx,
        }
    }
}

} // verus!
