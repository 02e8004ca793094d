//! The sending side of a loop's command queue.
use crate::command::AcceptorCommand;
use vstd::prelude::*;

verus! {

/// What all senders of a loop share: the name of the loop, and how many commands were sent.
#[derive(Debug)]
pub struct AcceptNotify {
    name: String,
    seq: u64,
}

/// The contents of an [`AcceptNotify`].
#[verifier::ext_equal]
pub struct NotifyState {
    pub name: Seq<char>,
    pub seq: u64,
}

impl NotifyState {
    /// After one more command was sent.
    pub open spec fn sent(self) -> NotifyState {
        NotifyState { seq: self.seq.wrapping_add(1), ..self }
    }

    /// After `n` more commands were sent.
    pub open spec fn sent_times(self, n: nat) -> NotifyState
        decreases n,
    {
        if n == 0 {
            self
        } else {
            self.sent_times((n - 1) as nat).sent()
        }
    }
}

impl View for AcceptNotify {
    type V = NotifyState;

    closed spec fn view(&self) -> NotifyState {
        NotifyState { name: self.name@, seq: self.seq }
    }
}

/// A command on its way into the queue of a loop.
#[derive(Debug)]
pub struct Dispatch {
    /// The name of the loop.
    pub name: String,
    /// The name of the command.
    pub label: &'static str,
    /// The number of the command.
    pub seq: u64,
    /// What is put into the queue.
    pub command: AcceptorCommand,
}

/// What became of the last step of sending a command.
#[derive(Debug, Clone, Copy, PartialEq, Eq, Structural)]
pub enum SendEvent {
    /// The command is in the queue.
    Queued,
    /// The loop is gone; the command was not queued.
    Closed,
    /// The poller was woken.
    Woken,
    /// The poller could not be woken.
    WakeFailed,
}

/// The next step of sending a command.
#[derive(Debug, Clone, Copy, PartialEq, Eq, Structural)]
pub enum SendAction {
    /// Wake the poller, so that the loop looks into its queue.
    Wake,
    /// Nothing is left to do.
    Done,
}

impl SendEvent {
    /// How sending goes on: the poller is woken exactly when a command went into the queue.
    pub fn next(self) -> (action: SendAction)
        ensures
            action is Wake <==> self is Queued,
            action is Done <==> !(self is Queued),
    {
        match self {
            SendEvent::Queued => SendAction::Wake,
            _ => SendAction::Done,
        }
    }
}

impl AcceptNotify {
    /// Makes the shared part for a loop with the given name.
    pub(crate) fn new(name: String) -> (notify: AcceptNotify)
        ensures
            notify@ == (NotifyState { name: name@, seq: 0 }),
    {
        AcceptNotify { name, seq: 0 }
    }

    /// Changes the name of the loop.
    pub(crate) fn set_name(&mut self, name: String)
        ensures
            final(self)@ == (NotifyState { name: name@, ..old(self)@ }),
    {
        self.name = name;
    }

    /// The name of the loop.
    pub fn name(&self) -> (name: String)
        ensures
            name@ == self@.name,
    {
        self.name.clone()
    }

    /// Begins to send a command: the command gets the next number and is to be put into the
    /// queue. [`SendEvent::next`] says how sending goes on.
    pub fn send(&mut self, cmd: AcceptorCommand) -> (dispatch: Dispatch)
        ensures
            final(self)@ == old(self)@.sent(),
            final(self)@.seq == old(self)@.seq.wrapping_add(1),
            final(self)@.name == old(self)@.name,
            dispatch.name@ == old(self)@.name,
            dispatch.label@ == cmd.spec_label(),
            dispatch.seq == final(self)@.seq,
            dispatch.command == cmd,
    {
        let label = cmd.label();
        self.seq = self.seq.wrapping_add(1);
        Dispatch { name: self.name(), label, seq: self.seq, command: cmd }
    }
}

} // verus!
