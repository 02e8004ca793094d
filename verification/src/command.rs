//! Commands that control a running accept loop.
use vstd::prelude::*;

verus! {

/// `oneshot::Sender` is carried through the library unopened.
#[verifier::external_type_specification]
#[verifier::external_body]
#[verifier::reject_recursive_types(T)]
pub struct ExOneshotSender<T>(oneshot::Sender<T>);

/// A command for the accept loop.
#[derive(Debug)]
pub enum AcceptorCommand {
    /// Stop the loop, then answer through the channel.
    Stop(oneshot::Sender<()>),
    /// Stop the loop; nobody waits for an answer.
    Terminate,
    /// Put the loop under back-pressure: the poller stops to watch the sockets.
    Pause,
    /// Offer the backlog to the server; when all of it is taken, end back-pressure and register the
    /// sockets again.
    Resume,
    /// Look for sockets whose error timeout has passed.
    Timer,
}

impl AcceptorCommand {
    /// The name of the command.
    pub open spec fn spec_label(self) -> Seq<char> {
        match self {
            AcceptorCommand::Stop(_) => "Stop"@,
            AcceptorCommand::Terminate => "Terminate"@,
            AcceptorCommand::Pause => "Pause"@,
            AcceptorCommand::Resume => "Resume"@,
            AcceptorCommand::Timer => "Timer"@,
        }
    }

    /// The name of the command, for messages.
    pub fn label(&self) -> (label: &'static str)
        ensures
            label@ == self.spec_label(),
            *self is Stop ==> label@ == "Stop"@,
            *self is Terminate ==> label@ == "Terminate"@,
            *self is Pause ==> label@ == "Pause"@,
            *self is Resume ==> label@ == "Resume"@,
            *self is Timer ==> label@ == "Timer"@,
    {
        match self {
            AcceptorCommand::Stop(_) => "Stop",
            AcceptorCommand::Terminate => "Terminate",
            AcceptorCommand::Pause => "Pause",
            AcceptorCommand::Resume => "Resume",
            AcceptorCommand::Timer => "Timer",
        }
    }
}

} // verus!
