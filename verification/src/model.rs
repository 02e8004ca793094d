//! The accept loop as a mathematical state machine.
//!
//! [`AcceptState`] is a state of the loop between two events, [`Step`] is what one event leads
//! to, and `AcceptState::next` is the whole behaviour of the loop.
use crate::command::AcceptorCommand;
use crate::protocol::{
    Connection, Effect, Event, Output, Request, ServerSocketInfo, ServerStatus, Token, ERR_TIMEOUT,
    EXIT_TIMEOUT, START_TIMEOUT,
};
use vstd::prelude::*;

verus! {

/// When a command is looked for: before or after the wait for events.
#[derive(Debug, Clone, Copy)]
pub enum Round {
    Before,
    After,
}

/// How the loop goes on when a list of sockets has been registered. `L` is the type of a list of
/// keys.
#[derive(Debug)]
#[verifier::ext_equal]
pub enum Next<L> {
    /// Report that the loop has started, then look for commands.
    Start,
    /// Look for further commands.
    Commands(Round),
    /// Go through the remaining events.
    Events(L),
}

/// What the loop waits for. `L` is the type of a list of keys.
#[derive(Debug)]
#[verifier::ext_equal]
pub enum Phase<L> {
    /// The loop has not begun.
    Created,
    /// The first of `keys` is being registered, the others follow.
    Register { keys: L, next: Next<L> },
    /// A command is being looked for.
    Receive(Round),
    /// Events are being waited for.
    Wait,
    /// The socket of the first event is being accepted on; `errors` of its connections have
    /// failed so far.
    Accept { keys: L, errors: usize },
    /// The server is being offered a connection of the socket of the first event.
    Deliver { keys: L, errors: usize },
    /// The server is being offered a connection of the backlog.
    Drain(Round),
    /// The loop has ended.
    Stopped,
}

/// A state of the accept loop.
#[verifier::ext_equal]
pub struct AcceptState<T> {
    /// The sockets; a socket's key is its position.
    pub sockets: Seq<ServerSocketInfo>,
    /// The connections that the server did not take, oldest first.
    pub backlog: Seq<Connection<T>>,
    /// The loop is under back-pressure. When that begins the poller stops to watch the sockets, and
    /// when it ends they are registered again. Events that come meanwhile are handled all the same.
    pub backpressure: bool,
    /// Whoever stops the loop does not want to wait for it.
    pub testing: bool,
    /// Somebody wants to know the status.
    pub reporting: bool,
    /// Who is told that the loop has started.
    pub starter: Option<oneshot::Sender<()>>,
    /// The timers that were asked for and have not come, oldest first. Each stands for the time,
    /// in nanoseconds, until which the socket rests that it was asked for; it comes after that.
    pub timers: Seq<u128>,
    /// What the loop waits for.
    pub phase: Phase<Seq<usize>>,
}

/// What an event leads to.
#[verifier::ext_equal]
pub struct Step<T> {
    pub state: AcceptState<T>,
    pub effects: Seq<Effect>,
    pub request: Request<T>,
}

impl<T> Output<T> {
    /// The step that ends in `state` with this output.
    pub open spec fn step(self, state: AcceptState<T>) -> Step<T> {
        Step { state, effects: self.effects@, request: self.request }
    }
}

/// The keys of `n` sockets, in order.
pub open spec fn all_keys(n: nat) -> Seq<usize> {
    Seq::new(n, |i: int| i as usize)
}

/// Picks the sockets that do not rest after an error.
pub open spec fn awake(sockets: Seq<ServerSocketInfo>) -> spec_fn(usize) -> bool {
    |key: usize| sockets[key as int].timeout is None
}

/// The time until which the last of the resting sockets rests, if some socket rests.
pub open spec fn last_rest(sockets: Seq<ServerSocketInfo>) -> Option<u128>
    decreases sockets.len(),
{
    if sockets.len() == 0 {
        None
    } else {
        let others = last_rest(sockets.drop_last());
        match (others, sockets.last().timeout) {
            (Some(a), Some(b)) => Some(if a < b { b } else { a }),
            (None, timeout) => timeout,
            (others, None) => others,
        }
    }
}

/// One of the timers comes after the time `until`.
pub open spec fn awaited(timers: Seq<u128>, until: u128) -> bool {
    exists|i: int| 0 <= i < timers.len() && #[trigger] timers[i] >= until
}

/// Picks the sockets that the poller watches: known to it, and not resting after an error.
pub open spec fn watched(sockets: Seq<ServerSocketInfo>) -> spec_fn(usize) -> bool {
    |key: usize| sockets[key as int].timeout is None && sockets[key as int].registered
}

/// Picks the sockets whose rest is over at time `now`.
pub open spec fn expired(sockets: Seq<ServerSocketInfo>, now: u64) -> spec_fn(usize) -> bool {
    |key: usize| sockets[key as int].timeout matches Some(until) && now > until
}

/// Picks the keys of sockets that the poller knows.
pub open spec fn known(sockets: Seq<ServerSocketInfo>) -> spec_fn(usize) -> bool {
    |key: usize| key < sockets.len() && sockets[key as int].registered
}

/// Each of the keys names one of `n` sockets.
pub open spec fn in_range(keys: Seq<usize>, n: nat) -> bool {
    forall|i: int| 0 <= i < keys.len() ==> #[trigger] keys[i] < n
}

/// The `count`-th error in a row is worth a warning: the first eight are, then every power of two.
pub open spec fn worth_warning(count: usize) -> bool {
    count <= 8 || vstd::arithmetic::power2::is_pow2_exists(count as int)
}

impl<T> AcceptState<T> {
    /// The event is one that the state waits for.
    pub open spec fn expects(self, event: Event<T>) -> bool {
        match event {
            Event::Registered | Event::RegisterFailed { .. } => self.phase is Register,
            Event::Command { .. }
            | Event::NoCommand
            | Event::Disconnected => self.phase is Receive,
            Event::Woken { .. } => self.phase is Wait,
            Event::Accepted { .. }
            | Event::NoConnection
            | Event::AcceptFailed { .. } => self.phase is Accept,
            Event::Delivered | Event::Refused { .. } => self.phase is Deliver || self.phase is Drain,
        }
    }

    /// The loop has yet to report that it has started.
    pub open spec fn starting(self) -> bool {
        self.phase is Created || (self.phase matches Phase::Register { next, .. } && next is Start)
    }

    /// What holds in every state of the loop: pending keys name sockets, a list that is being
    /// worked on is not empty, connections are held back only under back-pressure, outside
    /// back-pressure a socket rests only while a timer is to come after its rest, nobody waits
    /// any more for a loop that has started, and a loop that has ended has no sockets.
    pub open spec fn wf(self) -> bool {
        &&& self.sockets.len() <= usize::MAX
        &&& !self.backpressure ==> self.backlog.len() == 0
        &&& !self.backpressure ==> forall|i: int|
            #![trigger self.sockets[i]]
            0 <= i < self.sockets.len() ==> (self.sockets[i].timeout matches Some(until) ==> awaited(
                self.timers,
                until,
            ))
        &&& self.starter is Some ==> self.starting()
        &&& match self.phase {
            Phase::Register { keys, next } => {
                &&& keys.len() > 0
                &&& in_range(keys, self.sockets.len())
                &&& next matches Next::Events(rest) ==> in_range(rest, self.sockets.len())
            },
            Phase::Accept { keys, .. } | Phase::Deliver { keys, .. } => {
                &&& keys.len() > 0
                &&& in_range(keys, self.sockets.len())
            },
            Phase::Drain(_) => self.backpressure,
            Phase::Stopped => self.backpressure && self.sockets.len() == 0,
            _ => true,
        }
    }

    /// The state of a new loop for sockets with the given tokens: nothing is registered, and the
    /// loop is under back-pressure.
    pub open spec fn created(
        tx: oneshot::Sender<()>,
        tokens: Seq<Token>,
        testing: bool,
        reporting: bool,
    ) -> Self {
        AcceptState {
            sockets: Seq::new(
                tokens.len(),
                |i: int| ServerSocketInfo { token: tokens[i], registered: false, timeout: None },
            ),
            backlog: seq![],
            backpressure: true,
            testing,
            reporting,
            starter: Some(tx),
            timers: seq![],
            phase: Phase::Created,
        }
    }

    /// The report of a status, if somebody wants to know it.
    pub open spec fn update_status(self, status: ServerStatus) -> Seq<Effect> {
        if self.reporting {
            seq![Effect::Status(status)]
        } else {
            seq![]
        }
    }

    /// The state with another record of one socket.
    pub open spec fn with_socket(self, key: usize, info: ServerSocketInfo) -> Self {
        AcceptState { sockets: self.sockets.update(key as int, info), ..self }
    }

    /// The state in which the socket rests after an error at time `now`, and a timer was asked for.
    pub open spec fn resting(self, key: usize, now: u64) -> Self {
        let until = (now + ERR_TIMEOUT) as u128;
        AcceptState { timers: self.timers.push(until), ..self }.with_socket(
            key,
            ServerSocketInfo { timeout: Some(until), ..self.sockets[key as int] },
        )
    }

    /// The state under back-pressure. Error timeouts end when back-pressure begins.
    pub open spec fn pressed(self) -> Self {
        if self.backpressure {
            self
        } else {
            AcceptState {
                backpressure: true,
                sockets: Seq::new(
                    self.sockets.len(),
                    |i: int| ServerSocketInfo { timeout: None, ..self.sockets[i] },
                ),
                ..self
            }
        }
    }

    /// What is done when back-pressure is called for: the status is reported, and if
    /// back-pressure begins the poller stops to watch the sockets.
    pub open spec fn press(self) -> Seq<Effect> {
        let report = self.update_status(ServerStatus::NotReady);
        if self.backpressure {
            report
        } else {
            report + all_keys(self.sockets.len()).filter(watched(self.sockets)).map_values(
                |key: usize| Effect::Disable { key },
            )
        }
    }

    /// The sockets to be registered again after a timer at time `now`.
    pub open spec fn due(self, now: u64) -> Seq<usize> {
        if self.backpressure {
            seq![]
        } else {
            all_keys(self.sockets.len()).filter(expired(self.sockets, now))
        }
    }

    /// The timers that are still to come after one at time `now`. It is the oldest of those that
    /// were asked for, unless it comes too early for that.
    pub open spec fn timers_left(self, now: u64) -> Seq<u128> {
        if self.timers.len() > 0 && now > self.timers[0] {
            self.timers.drop_first()
        } else {
            self.timers
        }
    }

    /// The state after a timer at time `now`, in which the rest of the sockets that are due is over.
    pub open spec fn timers_done(self, now: u64) -> Self {
        AcceptState {
            timers: self.timers_left(now),
            sockets: Seq::new(
                self.sockets.len(),
                |i: int|
                    if !self.backpressure && expired(self.sockets, now)(i as usize) {
                        ServerSocketInfo { timeout: None, ..self.sockets[i] }
                    } else {
                        self.sockets[i]
                    },
            ),
            ..self
        }
    }

    /// The state in another phase, with the request that belongs to it.
    pub open spec fn ask(
        self,
        effects: Seq<Effect>,
        phase: Phase<Seq<usize>>,
        request: Request<T>,
    ) -> Step<T> {
        Step { state: AcceptState { phase, ..self }, effects, request }
    }

    /// Look for a command.
    pub open spec fn receive(self, effects: Seq<Effect>, round: Round) -> Step<T> {
        self.ask(effects, Phase::Receive(round), Request::Receive)
    }

    /// Go through events: accept on the first socket, or, after the last one, look for commands.
    pub open spec fn events(self, effects: Seq<Effect>, keys: Seq<usize>) -> Step<T> {
        if keys.len() == 0 {
            self.receive(effects, Round::After)
        } else {
            self.ask(effects, Phase::Accept { keys, errors: 0 }, Request::Accept { key: keys[0] })
        }
    }

    /// Report that the loop has started, if somebody waits for it.
    pub open spec fn started(self, effects: Seq<Effect>) -> Step<T> {
        let begun = AcceptState { starter: None, ..self };
        match self.starter {
            Some(tx) => begun.receive(
                effects.push(Effect::Answer { tx, delay: START_TIMEOUT }),
                Round::Before,
            ),
            None => begun.receive(effects, Round::Before),
        }
    }

    /// Register sockets one after the other, then go on with `next`.
    pub open spec fn register(
        self,
        effects: Seq<Effect>,
        keys: Seq<usize>,
        next: Next<Seq<usize>>,
    ) -> Step<T> {
        if keys.len() == 0 {
            match next {
                Next::Start => self.started(effects),
                Next::Commands(round) => self.receive(effects, round),
                Next::Events(rest) => self.events(effects, rest),
            }
        } else {
            self.ask(
                effects,
                Phase::Register { keys, next },
                Request::Register {
                    key: keys[0],
                    update: self.sockets[keys[0] as int].registered,
                },
            )
        }
    }

    /// The time until which some socket rests although no timer is to come after that, if there is
    /// such a socket: its timer has come under back-pressure.
    pub open spec fn overdue(self) -> Option<u128> {
        match last_rest(self.sockets) {
            Some(until) if !awaited(self.timers, until) => Some(until),
            _ => None,
        }
    }

    /// Offer the backlog to the server, oldest connection first. When it is empty back-pressure
    /// ends, and the sockets that do not rest are registered again. The others are left to their
    /// timers; where none is to come any more, one is asked for.
    pub open spec fn drain(self, effects: Seq<Effect>, round: Round) -> Step<T> {
        if self.backlog.len() == 0 {
            let keys = all_keys(self.sockets.len()).filter(awake(self.sockets));
            let eased = AcceptState { backpressure: false, ..self };
            match self.overdue() {
                Some(until) => AcceptState { timers: self.timers.push(until), ..eased }.register(
                    effects.push(Effect::ScheduleTimer),
                    keys,
                    Next::Commands(round),
                ),
                None => eased.register(effects, keys, Next::Commands(round)),
            }
        } else {
            AcceptState { backlog: self.backlog.drop_first(), ..self }.ask(
                effects,
                Phase::Drain(round),
                Request::Deliver { connection: self.backlog[0] },
            )
        }
    }

    /// Release all sockets, answer whoever asked for it, and end.
    pub open spec fn stop(
        self,
        effects: Seq<Effect>,
        tx: Option<oneshot::Sender<()>>,
    ) -> Step<T> {
        let released = effects + all_keys(self.sockets.len()).map_values(
            |key: usize| Effect::RemoveSource { key },
        );
        let delay = if self.testing {
            0
        } else {
            EXIT_TIMEOUT
        };
        AcceptState { sockets: seq![], ..self }.ask(
            match tx {
                Some(tx) => released.push(Effect::Answer { tx, delay }),
                None => released,
            },
            Phase::Stopped,
            Request::Finish,
        )
    }

    /// The beginning: all sockets are registered.
    pub open spec fn begin(self) -> Step<T> {
        self.register(seq![], all_keys(self.sockets.len()), Next::Start)
    }

    /// After the attempt to register the first of `keys`.
    pub open spec fn after_registration(
        self,
        keys: Seq<usize>,
        next: Next<Seq<usize>>,
        event: Event<T>,
    ) -> Step<T> {
        let info = self.sockets[keys[0] as int];
        match event {
            Event::RegisterFailed { kind, now } => if kind is WouldBlock {
                self.register(seq![], keys, next)
            } else {
                self.resting(keys[0], now).register(
                    seq![Effect::ScheduleTimer],
                    keys.drop_first(),
                    next,
                )
            },
            _ => self.with_socket(keys[0], ServerSocketInfo { registered: true, ..info }).register(
                seq![],
                keys.drop_first(),
                next,
            ),
        }
    }

    /// After a look for commands.
    pub open spec fn after_command(self, round: Round, event: Event<T>) -> Step<T> {
        match event {
            Event::Command { command, now } => match command {
                AcceptorCommand::Stop(tx) => if self.backpressure {
                    self.stop(seq![], Some(tx))
                } else {
                    self.pressed().stop(self.press(), Some(tx))
                },
                AcceptorCommand::Terminate => self.pressed().stop(self.press(), None),
                AcceptorCommand::Pause => if self.backpressure {
                    self.receive(seq![], round)
                } else {
                    self.pressed().receive(self.press(), round)
                },
                AcceptorCommand::Resume => if self.backpressure {
                    self.drain(self.update_status(ServerStatus::Ready), round)
                } else {
                    self.receive(seq![], round)
                },
                AcceptorCommand::Timer => self.timers_done(now).register(
                    seq![],
                    self.due(now),
                    Next::Commands(round),
                ),
            },
            Event::Disconnected => self.pressed().stop(self.press(), None),
            _ => match round {
                Round::Before => self.ask(seq![], Phase::Wait, Request::Wait),
                Round::After => self.receive(seq![], Round::Before),
            },
        }
    }

    /// After the wait for events.
    pub open spec fn after_wait(self, keys: Seq<usize>) -> Step<T> {
        self.events(seq![], keys.filter(known(self.sockets)))
    }

    /// After the attempt to accept a connection on the first of `keys`.
    pub open spec fn after_accept(
        self,
        keys: Seq<usize>,
        errors: usize,
        event: Event<T>,
    ) -> Step<T> {
        let key = keys[0];
        let rest = keys.drop_first();
        match event {
            Event::Accepted { io } => self.ask(
                seq![],
                Phase::Deliver { keys, errors },
                Request::Deliver {
                    connection: Connection { io, token: self.sockets[key as int].token },
                },
            ),
            Event::AcceptFailed { kind, now } => if kind is WouldBlock {
                self.register(seq![], seq![key], Next::Events(rest))
            } else if kind.per_connection() {
                let count = errors.wrapping_add(1);
                self.ask(
                    if worth_warning(count) {
                        seq![Effect::Warn { key, count }]
                    } else {
                        seq![]
                    },
                    Phase::Accept { keys, errors: count },
                    Request::Accept { key },
                )
            } else {
                self.resting(key, now).events(seq![Effect::ScheduleTimer], rest)
            },
            _ => self.register(seq![], seq![key], Next::Events(rest)),
        }
    }

    /// After the server was offered a connection accepted on the first of `keys`.
    pub open spec fn after_delivery(
        self,
        keys: Seq<usize>,
        errors: usize,
        event: Event<T>,
    ) -> Step<T> {
        match event {
            Event::Refused { connection } => {
                let held = AcceptState { backlog: self.backlog.push(connection), ..self };
                held.pressed().events(self.press(), keys.drop_first())
            },
            _ => self.ask(
                seq![],
                Phase::Accept { keys, errors },
                Request::Accept { key: keys[0] },
            ),
        }
    }

    /// After the server was offered a connection of the backlog.
    pub open spec fn after_drain(self, round: Round, event: Event<T>) -> Step<T> {
        match event {
            Event::Refused { connection } => AcceptState {
                backlog: seq![connection] + self.backlog,
                ..self
            }.receive(seq![], round),
            _ => self.drain(seq![], round),
        }
    }

    /// What the loop does when `event` answers its request.
    pub open spec fn next(self, event: Event<T>) -> Step<T>
        recommends
            self.expects(event),
    {
        match self.phase {
            Phase::Register { keys, next } => self.after_registration(keys, next, event),
            Phase::Receive(round) => self.after_command(round, event),
            Phase::Wait => match event {
                Event::Woken { keys } => self.after_wait(keys@),
                _ => arbitrary(),
            },
            Phase::Accept { keys, errors } => self.after_accept(keys, errors, event),
            Phase::Deliver { keys, errors } => self.after_delivery(keys, errors, event),
            Phase::Drain(round) => self.after_drain(round, event),
            Phase::Created | Phase::Stopped => arbitrary(),
        }
    }
}

} // verus!
