//! The accept loop.
use crate::command::AcceptorCommand;
use crate::error::ErrorKind;
use crate::model::{AcceptState, Next, Phase, Round};
use crate::protocol::{
    Connection, Effect, Event, Output, Request, ServerSocketInfo, ServerStatus, Token, ERR_TIMEOUT,
    EXIT_TIMEOUT, START_TIMEOUT,
};
use std::collections::VecDeque;
use vstd::prelude::*;

verus! {

/// The accept loop of a server, as a machine that is driven from outside.
#[derive(Debug)]
pub struct Accept<T> {
    sockets: Vec<ServerSocketInfo>,
    backlog: VecDeque<Connection<T>>,
    backpressure: bool,
    testing: bool,
    reporting: bool,
    starter: Option<oneshot::Sender<()>>,
    timers: VecDeque<u128>,
    phase: Phase<VecDeque<usize>>,
}

impl View for Next<VecDeque<usize>> {
    type V = Next<Seq<usize>>;

    open spec fn view(&self) -> Next<Seq<usize>> {
        match *self {
            Next::Start => Next::Start,
            Next::Commands(round) => Next::Commands(round),
            Next::Events(keys) => Next::Events(keys@),
        }
    }
}

impl View for Phase<VecDeque<usize>> {
    type V = Phase<Seq<usize>>;

    open spec fn view(&self) -> Phase<Seq<usize>> {
        match *self {
            Phase::Created => Phase::Created,
            Phase::Register { keys, next } => Phase::Register { keys: keys@, next: next@ },
            Phase::Receive(round) => Phase::Receive(round),
            Phase::Wait => Phase::Wait,
            Phase::Accept { keys, errors } => Phase::Accept { keys: keys@, errors },
            Phase::Deliver { keys, errors } => Phase::Deliver { keys: keys@, errors },
            Phase::Drain(round) => Phase::Drain(round),
            Phase::Stopped => Phase::Stopped,
        }
    }
}

impl<T> View for Accept<T> {
    type V = AcceptState<T>;

    closed spec fn view(&self) -> AcceptState<T> {
        AcceptState {
            sockets: self.sockets@,
            backlog: self.backlog@,
            backpressure: self.backpressure,
            testing: self.testing,
            reporting: self.reporting,
            starter: self.starter,
            timers: self.timers@,
            phase: self.phase@,
        }
    }
}

/// Tells whether the `count`-th error in a row is worth a warning: the first eight are, then
/// every power of two.
fn is_worth_warning(count: usize) -> (r: bool)
    ensures
        r == crate::model::worth_warning(count),
{
    let mut rest: usize = count;
    while rest > 0 && rest % 2 == 0
        invariant
            vstd::arithmetic::power2::is_pow2(count as int) == vstd::arithmetic::power2::is_pow2(
                rest as int,
            ),
        decreases rest,
    {
        reveal(vstd::arithmetic::power2::is_pow2);
        rest = rest / 2;
    }
    proof {
        reveal(vstd::arithmetic::power2::is_pow2);
        vstd::arithmetic::power2::is_pow2_equiv(count as int);
    }
    count <= 8 || rest == 1
}

/// One more key at the end of a list of all keys, after a test.
proof fn lemma_next_key(n: nat, test: spec_fn(usize) -> bool)
    requires
        n < usize::MAX,
    ensures
        crate::model::all_keys(n + 1) == crate::model::all_keys(n).push(n as usize),
        crate::model::all_keys(n + 1).filter(test) == if test(n as usize) {
            crate::model::all_keys(n).filter(test).push(n as usize)
        } else {
            crate::model::all_keys(n).filter(test)
        },
{
    assert(crate::model::all_keys(n + 1) =~= crate::model::all_keys(n).push(n as usize));
    crate::model::all_keys(n).lemma_filter_push(n as usize, test);
}

/// No keys, before the first test.
proof fn lemma_no_keys(test: spec_fn(usize) -> bool)
    ensures
        crate::model::all_keys(0) == Seq::<usize>::empty(),
        crate::model::all_keys(0).filter(test) == Seq::<usize>::empty(),
{
    reveal(Seq::filter);
    assert(crate::model::all_keys(0) =~= Seq::<usize>::empty());
}

impl<T> Accept<T> {
    /// Moves to another phase and makes the request that belongs to it.
    fn ask(
        &mut self,
        effects: Vec<Effect>,
        phase: Phase<VecDeque<usize>>,
        request: Request<T>,
    ) -> (out: Output<T>)
        ensures
            out.step(final(self)@) == old(self)@.ask(effects@, phase@, request),
    {
        self.phase = phase;
        Output { effects, request }
    }

    /// Looks for a command.
    fn receive(&mut self, effects: Vec<Effect>, round: Round) -> (out: Output<T>)
        ensures
            out.step(final(self)@) == old(self)@.receive(effects@, round),
    {
        self.ask(effects, Phase::Receive(round), Request::Receive)
    }

    /// Goes through events.
    fn events(&mut self, effects: Vec<Effect>, keys: VecDeque<usize>) -> (out: Output<T>)
        ensures
            out.step(final(self)@) == old(self)@.events(effects@, keys@),
    {
        if keys.len() == 0 {
            self.receive(effects, Round::After)
        } else {
            let key: usize = keys[0];
            self.ask(effects, Phase::Accept { keys, errors: 0 }, Request::Accept { key })
        }
    }

    /// Reports that the loop has started, if somebody waits for it.
    fn started(&mut self, effects: Vec<Effect>) -> (out: Output<T>)
        ensures
            out.step(final(self)@) == old(self)@.started(effects@),
    {
        let mut effects = effects;
        if let Some(tx) = self.starter.take() {
            effects.push(Effect::Answer { tx, delay: START_TIMEOUT });
        }
        self.receive(effects, Round::Before)
    }

    /// Registers sockets one after the other, then goes on with `next`.
    fn register(
        &mut self,
        effects: Vec<Effect>,
        keys: VecDeque<usize>,
        next: Next<VecDeque<usize>>,
    ) -> (out: Output<T>)
        requires
            crate::model::in_range(keys@, old(self)@.sockets.len()),
        ensures
            out.step(final(self)@) == old(self)@.register(effects@, keys@, next@),
    {
        if keys.len() == 0 {
            match next {
                Next::Start => self.started(effects),
                Next::Commands(round) => self.receive(effects, round),
                Next::Events(rest) => self.events(effects, rest),
            }
        } else {
            let key: usize = keys[0];
            let update = self.sockets[key].registered;
            self.ask(effects, Phase::Register { keys, next }, Request::Register { key, update })
        }
    }

    /// The keys of all sockets, in order.
    fn all_keys(&self) -> (keys: VecDeque<usize>)
        ensures
            keys@ == crate::model::all_keys(self@.sockets.len()),
    {
        let mut keys: VecDeque<usize> = VecDeque::new();
        let mut key: usize = 0;
        while key < self.sockets.len()
            invariant
                key <= self.sockets.len(),
                keys@ =~= crate::model::all_keys(key as nat),
            decreases self.sockets.len() - key,
        {
            keys.push_back(key);
            key = key + 1;
        }
        keys
    }

    /// The keys of the sockets that do not rest after an error, in order.
    fn awake_keys(&self) -> (keys: VecDeque<usize>)
        ensures
            keys@ == crate::model::all_keys(self@.sockets.len()).filter(
                crate::model::awake(self@.sockets),
            ),
            crate::model::in_range(keys@, self@.sockets.len()),
    {
        let ghost test = crate::model::awake(self.sockets@);
        let mut keys: VecDeque<usize> = VecDeque::new();
        let mut key: usize = 0;
        proof {
            lemma_no_keys(test);
        }
        while key < self.sockets.len()
            invariant
                key <= self.sockets.len(),
                test == crate::model::awake(self.sockets@),
                keys@ == crate::model::all_keys(key as nat).filter(test),
            decreases self.sockets.len() - key,
        {
            proof {
                lemma_next_key(key as nat, test);
            }
            if self.sockets[key].timeout.is_none() {
                keys.push_back(key);
            }
            key = key + 1;
        }
        proof {
            crate::laws::lemma_filter_in_range(
                crate::model::all_keys(key as nat),
                test,
                self.sockets@.len(),
            );
        }
        keys
    }

    /// Reports a status, if somebody wants to know it.
    fn update_status(&self, status: ServerStatus, effects: &mut Vec<Effect>)
        ensures
            final(effects)@ == old(effects)@ + self@.update_status(status),
    {
        if self.reporting {
            effects.push(Effect::Status(status));
        }
    }

    /// Tells the poller that a socket is of no interest, if the poller knows it.
    fn remove_source(&self, key: usize, effects: &mut Vec<Effect>)
        requires
            key < self@.sockets.len(),
        ensures
            final(effects)@ == if self@.sockets[key as int].registered {
                old(effects)@.push(Effect::Disable { key })
            } else {
                old(effects)@
            },
    {
        if self.sockets[key].registered {
            effects.push(Effect::Disable { key });
        }
    }

    /// Puts the loop under back-pressure: the status is reported, and if back-pressure begins
    /// the poller stops to watch the sockets and error timeouts end.
    fn backpressure_on(&mut self) -> (effects: Vec<Effect>)
        ensures
            final(self)@ == old(self)@.pressed(),
            effects@ == old(self)@.press(),
    {
        let mut effects: Vec<Effect> = Vec::new();
        self.update_status(ServerStatus::NotReady, &mut effects);
        let ghost report = effects@;
        if !self.backpressure {
            self.backpressure = true;
            let ghost test = crate::model::watched(old(self).sockets@);
            let ghost disable = |key: usize| Effect::Disable { key };
            let mut key: usize = 0;
            proof {
                lemma_no_keys(test);
                assert(effects@ =~= report + crate::model::all_keys(0).filter(test).map_values(
                    disable,
                ));
            }
            while key < self.sockets.len()
                invariant
                    key <= self.sockets.len(),
                    test == crate::model::watched(old(self).sockets@),
                    disable == (|key: usize| Effect::Disable { key }),
                    self.sockets@.len() == old(self).sockets@.len(),
                    self.backlog == old(self).backlog,
                    self.backpressure,
                    self.testing == old(self).testing,
                    self.reporting == old(self).reporting,
                    self.starter == old(self).starter,
                    self.timers == old(self).timers,
                    self.phase == old(self).phase,
                    forall|i: int|
                        0 <= i < key ==> self.sockets@[i] == (ServerSocketInfo {
                            timeout: None,
                            ..old(self).sockets@[i]
                        }),
                    forall|i: int|
                        key <= i < self.sockets@.len() ==> self.sockets@[i]
                            == old(self).sockets@[i],
                    effects@ == report + crate::model::all_keys(key as nat).filter(
                        test,
                    ).map_values(disable),
                decreases self.sockets.len() - key,
            {
                let info = self.sockets[key];
                let ghost before = effects@;
                self.sockets.set(key, ServerSocketInfo { timeout: None, ..info });
                if info.timeout.is_none() {
                    self.remove_source(key, &mut effects);
                }
                proof {
                    lemma_next_key(key as nat, test);
                    let kept = crate::model::all_keys(key as nat).filter(test);
                    assert(kept.push(key).map_values(disable) =~= kept.map_values(disable).push(
                        disable(key),
                    ));
                    assert(before.push(disable(key)) =~= report + kept.map_values(disable).push(
                        disable(key),
                    ));
                }
                key = key + 1;
            }
            assert(self@.sockets =~= old(self)@.pressed().sockets);
        }
        effects
    }

    /// The time until which the last of the resting sockets rests, if some socket rests.
    fn last_rest(&self) -> (until: Option<u128>)
        ensures
            until == crate::model::last_rest(self@.sockets),
    {
        let mut last: Option<u128> = None;
        let mut key: usize = 0;
        while key < self.sockets.len()
            invariant
                key <= self.sockets.len(),
                last == crate::model::last_rest(self.sockets@.take(key as int)),
            decreases self.sockets.len() - key,
        {
            assert(self.sockets@.take(key + 1).drop_last() =~= self.sockets@.take(key as int));
            if let Some(until) = self.sockets[key].timeout {
                last = match last {
                    Some(other) if other >= until => Some(other),
                    _ => Some(until),
                };
            }
            key = key + 1;
        }
        assert(self.sockets@.take(key as int) =~= self.sockets@);
        last
    }

    /// Tells whether a timer that was asked for comes after the time `until`.
    fn is_awaited(&self, until: u128) -> (r: bool)
        ensures
            r == crate::model::awaited(self@.timers, until),
    {
        let mut i: usize = 0;
        while i < self.timers.len()
            invariant
                i <= self.timers@.len(),
                forall|j: int| 0 <= j < i ==> #[trigger] self.timers@[j] < until,
            decreases self.timers.len() - i,
        {
            if self.timers[i] >= until {
                return true;
            }
            i = i + 1;
        }
        false
    }

    /// Offers the backlog to the server, oldest connection first. When it is empty back-pressure
    /// ends, the sockets that do not rest are registered again, and a timer is asked for if another
    /// one rests whose timer has come already.
    fn drain(&mut self, effects: Vec<Effect>, round: Round) -> (out: Output<T>)
        requires
            old(self)@.backpressure,
        ensures
            out.step(final(self)@) == old(self)@.drain(effects@, round),
    {
        match self.backlog.pop_front() {
            Some(connection) => {
                assert(self.backlog@ =~= old(self).backlog@.drop_first());
                self.ask(effects, Phase::Drain(round), Request::Deliver { connection })
            },
            None => {
                // re-enable acceptors; a socket with a timeout registers itself after the timeout
                let mut effects = effects;
                self.backpressure = false;
                if let Some(until) = self.last_rest() {
                    if !self.is_awaited(until) {
                        self.timers.push_back(until);
                        effects.push(Effect::ScheduleTimer);
                    }
                }
                let keys = self.awake_keys();
                self.register(effects, keys, Next::Commands(round))
            },
        }
    }

    /// Takes the loop out of back-pressure: the status is reported, then the backlog is handled.
    fn backpressure_off(&mut self, round: Round) -> (out: Output<T>)
        requires
            old(self)@.backpressure,
        ensures
            out.step(final(self)@) == old(self)@.drain(
                old(self)@.update_status(ServerStatus::Ready),
                round,
            ),
    {
        let mut effects: Vec<Effect> = Vec::new();
        self.update_status(ServerStatus::Ready, &mut effects);
        assert(effects@ =~= old(self)@.update_status(ServerStatus::Ready));
        self.drain(effects, round)
    }

    /// Handles a timer at time `now`: ends the rest of the sockets whose timeout has passed and
    /// gives their keys.
    fn process_timer(&mut self, now: u64) -> (keys: VecDeque<usize>)
        ensures
            final(self)@ == old(self)@.timers_done(now),
            keys@ == old(self)@.due(now),
            crate::model::in_range(keys@, old(self)@.sockets.len()),
    {
        let ghost test = crate::model::expired(old(self).sockets@, now);
        if self.timers.len() > 0 && now as u128 > self.timers[0] {
            self.timers.pop_front();
            assert(self.timers@ =~= old(self).timers@.drop_first());
        }
        let mut keys: VecDeque<usize> = VecDeque::new();
        let mut key: usize = 0;
        proof {
            lemma_no_keys(test);
        }
        while key < self.sockets.len()
            invariant
                key <= self.sockets.len(),
                test == crate::model::expired(old(self).sockets@, now),
                self.sockets@.len() == old(self).sockets@.len(),
                self.backlog == old(self).backlog,
                self.backpressure == old(self).backpressure,
                self.testing == old(self).testing,
                self.reporting == old(self).reporting,
                self.starter == old(self).starter,
                self.timers@ == old(self)@.timers_left(now),
                self.phase == old(self).phase,
                forall|i: int|
                    0 <= i < key ==> self.sockets@[i] == if !self.backpressure && test(
                        i as usize,
                    ) {
                        ServerSocketInfo { timeout: None, ..old(self).sockets@[i] }
                    } else {
                        old(self).sockets@[i]
                    },
                forall|i: int|
                    key <= i < self.sockets@.len() ==> self.sockets@[i] == old(self).sockets@[i],
                keys@ == if self.backpressure {
                    Seq::<usize>::empty()
                } else {
                    crate::model::all_keys(key as nat).filter(test)
                },
            decreases self.sockets.len() - key,
        {
            let info = self.sockets[key];
            proof {
                lemma_next_key(key as nat, test);
            }
            if let Some(until) = info.timeout {
                if now as u128 > until && !self.backpressure {
                    self.sockets.set(key, ServerSocketInfo { timeout: None, ..info });
                    keys.push_back(key);
                }
            }
            key = key + 1;
        }
        proof {
            assert(self@.sockets =~= old(self)@.timers_done(now).sockets);
            crate::laws::lemma_filter_in_range(
                crate::model::all_keys(key as nat),
                test,
                self.sockets@.len(),
            );
        }
        keys
    }

    /// Releases all sockets, answers whoever asked for it, and ends.
    fn stop_loop(
        &mut self,
        effects: Vec<Effect>,
        tx: Option<oneshot::Sender<()>>,
    ) -> (out: Output<T>)
        ensures
            out.step(final(self)@) == old(self)@.stop(effects@, tx),
    {
        let mut effects = effects;
        let ghost before = effects@;
        let ghost release = |key: usize| Effect::RemoveSource { key };
        let mut key: usize = 0;
        proof {
            assert(effects@ =~= before + crate::model::all_keys(0).map_values(release));
        }
        while key < self.sockets.len()
            invariant
                key <= self.sockets.len(),
                release == (|key: usize| Effect::RemoveSource { key }),
                *self == *old(self),
                effects@ == before + crate::model::all_keys(key as nat).map_values(release),
            decreases self.sockets.len() - key,
        {
            effects.push(Effect::RemoveSource { key });
            proof {
                lemma_next_key(key as nat, |k: usize| true);
                assert(effects@ =~= before + crate::model::all_keys((key + 1) as nat).map_values(
                    release,
                ));
            }
            key = key + 1;
        }
        self.sockets.clear();
        if let Some(tx) = tx {
            let delay: u64 = if self.testing {
                0
            } else {
                EXIT_TIMEOUT
            };
            effects.push(Effect::Answer { tx, delay });
        }
        self.ask(effects, Phase::Stopped, Request::Finish)
    }

    /// Handles the attempt to register the first of `keys`.
    fn add_source(
        &mut self,
        keys: VecDeque<usize>,
        next: Next<VecDeque<usize>>,
        event: Event<T>,
    ) -> (out: Output<T>)
        requires
            keys@.len() > 0,
            crate::model::in_range(keys@, old(self)@.sockets.len()),
        ensures
            out.step(final(self)@) == old(self)@.after_registration(keys@, next@, event),
    {
        let mut rest = keys;
        let key: usize = rest[0];
        let info = self.sockets[key];
        match event {
            Event::RegisterFailed { kind, now } => {
                if let ErrorKind::WouldBlock = kind {
                    self.register(Vec::new(), rest, next)
                } else {
                    // sleep after error
                    self.rest(key, now);
                    rest.pop_front();
                    assert(rest@ =~= keys@.drop_first());
                    let mut effects: Vec<Effect> = Vec::new();
                    effects.push(Effect::ScheduleTimer);
                    self.register(effects, rest, next)
                }
            },
            _ => {
                self.sockets.set(key, ServerSocketInfo { registered: true, ..info });
                rest.pop_front();
                assert(rest@ =~= keys@.drop_first());
                self.register(Vec::new(), rest, next)
            },
        }
    }

    /// Lets a socket rest after an error at time `now`, for which a timer is asked for.
    fn rest(&mut self, key: usize, now: u64)
        requires
            key < old(self)@.sockets.len(),
        ensures
            final(self)@ == old(self)@.resting(key, now),
    {
        let until: u128 = now as u128 + ERR_TIMEOUT as u128;
        let info = self.sockets[key];
        self.sockets.set(key, ServerSocketInfo { timeout: Some(until), ..info });
        self.timers.push_back(until);
    }

    /// Handles the outcome of a look for commands.
    fn process_cmd(&mut self, round: Round, event: Event<T>) -> (out: Output<T>)
        ensures
            out.step(final(self)@) == old(self)@.after_command(round, event),
    {
        match event {
            Event::Command { command, now } => match command {
                AcceptorCommand::Stop(tx) => {
                    let effects = if self.backpressure {
                        Vec::new()
                    } else {
                        self.backpressure_on()
                    };
                    self.stop_loop(effects, Some(tx))
                },
                AcceptorCommand::Terminate => {
                    let effects = self.backpressure_on();
                    self.stop_loop(effects, None)
                },
                AcceptorCommand::Pause => {
                    let effects = if self.backpressure {
                        Vec::new()
                    } else {
                        self.backpressure_on()
                    };
                    self.receive(effects, round)
                },
                AcceptorCommand::Resume => {
                    if self.backpressure {
                        self.backpressure_off(round)
                    } else {
                        self.receive(Vec::new(), round)
                    }
                },
                AcceptorCommand::Timer => {
                    let keys = self.process_timer(now);
                    self.register(Vec::new(), keys, Next::Commands(round))
                },
            },
            Event::Disconnected => {
                let effects = self.backpressure_on();
                self.stop_loop(effects, None)
            },
            _ => match round {
                Round::Before => self.ask(Vec::new(), Phase::Wait, Request::Wait),
                Round::After => self.receive(Vec::new(), Round::Before),
            },
        }
    }

    /// Handles the events of a wait: those of sockets that the poller does not know are skipped.
    fn process_events(&mut self, events: Vec<usize>) -> (out: Output<T>)
        ensures
            out.step(final(self)@) == old(self)@.after_wait(events@),
    {
        let ghost test = crate::model::known(self.sockets@);
        let mut keys: VecDeque<usize> = VecDeque::new();
        let mut i: usize = 0;
        proof {
            reveal(Seq::filter);
            assert(events@.take(0) =~= Seq::<usize>::empty());
        }
        while i < events.len()
            invariant
                i <= events.len(),
                test == crate::model::known(self.sockets@),
                *self == *old(self),
                keys@ == events@.take(i as int).filter(test),
            decreases events.len() - i,
        {
            let key: usize = events[i];
            if key < self.sockets.len() && self.sockets[key].registered {
                keys.push_back(key);
            }
            proof {
                events@.take(i as int).lemma_filter_push(key, test);
                assert(events@.take(i + 1) =~= events@.take(i as int).push(key));
            }
            i = i + 1;
        }
        assert(events@.take(i as int) =~= events@);
        self.events(Vec::new(), keys)
    }

    /// Handles the attempt to accept a connection on the first of `keys`.
    fn accept(&mut self, keys: VecDeque<usize>, errors: usize, event: Event<T>) -> (out: Output<T>)
        requires
            keys@.len() > 0,
            crate::model::in_range(keys@, old(self)@.sockets.len()),
        ensures
            out.step(final(self)@) == old(self)@.after_accept(keys@, errors, event),
    {
        let key: usize = keys[0];
        match event {
            Event::Accepted { io } => {
                let token = self.sockets[key].token;
                self.ask(
                    Vec::new(),
                    Phase::Deliver { keys, errors },
                    Request::Deliver { connection: Connection { io, token } },
                )
            },
            Event::AcceptFailed { kind, now } => {
                if let ErrorKind::WouldBlock = kind {
                    self.rearm(keys)
                } else if kind.is_connection_error() {
                    let count: usize = errors.wrapping_add(1);
                    let mut effects: Vec<Effect> = Vec::new();
                    if is_worth_warning(count) {
                        effects.push(Effect::Warn { key, count });
                    }
                    self.ask(effects, Phase::Accept { keys, errors: count }, Request::Accept { key })
                } else {
                    // sleep after error
                    self.rest(key, now);
                    let mut rest = keys;
                    rest.pop_front();
                    assert(rest@ =~= keys@.drop_first());
                    let mut effects: Vec<Effect> = Vec::new();
                    effects.push(Effect::ScheduleTimer);
                    self.events(effects, rest)
                }
            },
            _ => self.rearm(keys),
        }
    }

    /// Registers the first of `keys` again, then goes on with the other events.
    fn rearm(&mut self, keys: VecDeque<usize>) -> (out: Output<T>)
        requires
            keys@.len() > 0,
            crate::model::in_range(keys@, old(self)@.sockets.len()),
        ensures
            out.step(final(self)@) == old(self)@.register(
                seq![],
                seq![keys@[0]],
                Next::Events(keys@.drop_first()),
            ),
    {
        let mut rest = keys;
        let key: usize = rest[0];
        rest.pop_front();
        let mut again: VecDeque<usize> = VecDeque::new();
        again.push_back(key);
        assert(rest@ =~= keys@.drop_first());
        assert(again@ =~= seq![keys@[0]]);
        self.register(Vec::new(), again, Next::Events(rest))
    }

    /// Handles the server's answer to a connection accepted on the first of `keys`.
    fn delivered(
        &mut self,
        keys: VecDeque<usize>,
        errors: usize,
        event: Event<T>,
    ) -> (out: Output<T>)
        requires
            keys@.len() > 0,
        ensures
            out.step(final(self)@) == old(self)@.after_delivery(keys@, errors, event),
    {
        match event {
            Event::Refused { connection } => {
                // the server is unavailable
                self.backlog.push_back(connection);
                let effects = self.backpressure_on();
                let mut rest = keys;
                rest.pop_front();
                assert(rest@ =~= keys@.drop_first());
                self.events(effects, rest)
            },
            _ => {
                let key: usize = keys[0];
                self.ask(Vec::new(), Phase::Accept { keys, errors }, Request::Accept { key })
            },
        }
    }

    /// Handles the server's answer to a connection of the backlog.
    fn drained(&mut self, round: Round, event: Event<T>) -> (out: Output<T>)
        requires
            old(self)@.backpressure,
        ensures
            out.step(final(self)@) == old(self)@.after_drain(round, event),
    {
        match event {
            Event::Refused { connection } => {
                // the server is unavailable
                self.backlog.push_front(connection);
                self.receive(Vec::new(), round)
            },
            _ => self.drain(Vec::new(), round),
        }
    }

    /// Makes a loop for sockets of the given services. Nothing is registered yet, and the loop is
    /// under back-pressure. `tx` is answered when the loop has started.
    pub fn new(
        tx: oneshot::Sender<()>,
        socks: Vec<Token>,
        testing: bool,
        reporting: bool,
    ) -> (accept: Accept<T>)
        ensures
            accept@ == AcceptState::<T>::created(tx, socks@, testing, reporting),
            accept@.sockets.len() == socks@.len(),
            forall|i: int|
                0 <= i < socks@.len() ==> (#[trigger] accept@.sockets[i]).token == socks@[i],
            accept@.starter == Some(tx),
            accept@.testing == testing,
            accept@.reporting == reporting,
            accept@.wf(),
    {
        let mut sockets: Vec<ServerSocketInfo> = Vec::new();
        let mut i: usize = 0;
        while i < socks.len()
            invariant
                i <= socks.len(),
                sockets@.len() == i,
                forall|j: int|
                    0 <= j < i ==> sockets@[j] == (ServerSocketInfo {
                        token: socks@[j],
                        registered: false,
                        timeout: None,
                    }),
            decreases socks.len() - i,
        {
            sockets.push(ServerSocketInfo { token: socks[i], registered: false, timeout: None });
            i = i + 1;
        }
        let accept = Accept {
            sockets,
            backlog: VecDeque::new(),
            backpressure: true,
            testing,
            reporting,
            starter: Some(tx),
            timers: VecDeque::new(),
            phase: Phase::Created,
        };
        assert(accept@.sockets =~= AcceptState::<T>::created(
            tx,
            socks@,
            testing,
            reporting,
        ).sockets);
        accept
    }

    /// Begins: all sockets are registered.
    pub fn begin(&mut self) -> (out: Output<T>)
        requires
            old(self)@.wf(),
            old(self)@.phase is Created,
        ensures
            out.step(final(self)@) == old(self)@.begin(),
            out.effects@ == old(self)@.begin().effects,
            out.request == old(self)@.begin().request,
            final(self)@ == old(self)@.begin().state,
            final(self)@.wf(),
    {
        proof {
            crate::laws::law_beginning_is_valid(self@);
        }
        let keys = self.all_keys();
        self.register(Vec::new(), keys, Next::Start)
    }

    /// Tells whether the loop is under back-pressure.
    pub fn is_backpressure(&self) -> (r: bool)
        ensures
            r == self@.backpressure,
    {
        self.backpressure
    }

    /// Tells whether the event is an outcome that the last request can have.
    pub fn expects(&self, event: &Event<T>) -> (r: bool)
        ensures
            r == self@.expects(*event),
    {
        match event {
            Event::Registered | Event::RegisterFailed { .. } => matches!(
                self.phase,
                Phase::Register { .. }
            ),
            Event::Command { .. }
            | Event::NoCommand
            | Event::Disconnected => matches!(self.phase, Phase::Receive(_)),
            Event::Woken { .. } => matches!(self.phase, Phase::Wait),
            Event::Accepted { .. }
            | Event::NoConnection
            | Event::AcceptFailed { .. } => matches!(self.phase, Phase::Accept { .. }),
            Event::Delivered | Event::Refused { .. } => matches!(
                self.phase,
                Phase::Deliver { .. } | Phase::Drain(_)
            ),
        }
    }

    /// Goes on with the outcome of the last request.
    pub fn poll(&mut self, event: Event<T>) -> (out: Output<T>)
        requires
            old(self)@.wf(),
            old(self)@.expects(event),
        ensures
            out.step(final(self)@) == old(self)@.next(event),
            out.effects@ == old(self)@.next(event).effects,
            out.request == old(self)@.next(event).request,
            final(self)@ == old(self)@.next(event).state,
            final(self)@.wf(),
    {
        proof {
            crate::laws::law_state_stays_valid(self@, event);
        }
        let mut phase = Phase::Stopped;
        std::mem::swap(&mut phase, &mut self.phase);
        match phase {
            Phase::Register { keys, next } => self.add_source(keys, next, event),
            Phase::Receive(round) => self.process_cmd(round, event),
            Phase::Wait => match event {
                Event::Woken { keys } => self.process_events(keys),
                _ => vstd::pervasive::unreached(),
            },
            Phase::Accept { keys, errors } => self.accept(keys, errors, event),
            Phase::Deliver { keys, errors } => self.delivered(keys, errors, event),
            Phase::Drain(round) => self.drained(round, event),
            Phase::Created | Phase::Stopped => vstd::pervasive::unreached(),
        }
    }
}

} // verus!
