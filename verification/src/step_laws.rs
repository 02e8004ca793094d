//! How the accept loop goes on: what each step does to the state of the loop, and what it asks for
//! next.
use crate::command::AcceptorCommand;
use crate::effect_laws::{
    ascending, completes_start, ends_loop, is_lasting_error, rests_without_timer,
    takes_pressure_off,
};
use crate::error::ErrorKind;
use crate::model::{AcceptState, Next, Phase, Round, Step};
use crate::protocol::{Connection, Effect, Event, Request, Token};
use vstd::prelude::*;

verus! {

/// The key of the socket that is being registered or accepted on.
pub open spec fn handled<T>(s: AcceptState<T>) -> usize {
    match s.phase {
        Phase::Register { keys, .. }
        | Phase::Accept { keys, .. }
        | Phase::Deliver { keys, .. } => keys[0],
        _ => arbitrary(),
    }
}

/// The time of an event that carries one.
pub open spec fn moment<T>(event: Event<T>) -> u64 {
    match event {
        Event::RegisterFailed { now, .. }
        | Event::Command { now, .. }
        | Event::AcceptFailed { now, .. } => now,
        _ => arbitrary(),
    }
}

/// The loop goes on with these events: it accepts on the first socket, with no errors so far, or
/// looks for commands if there are no more events.
pub open spec fn goes_through<T>(step: Step<T>, keys: Seq<usize>) -> bool {
    if keys.len() == 0 {
        &&& step.state.phase == Phase::<Seq<usize>>::Receive(Round::After)
        &&& step.request is Receive
    } else {
        &&& step.state.phase == (Phase::Accept { keys, errors: 0 })
        &&& step.request == (Request::<T>::Accept { key: keys[0] })
    }
}

/// The loop registers exactly the sockets that a test picks, in the order of their keys, and then
/// looks for further commands.
pub open spec fn registers<T>(step: Step<T>, test: spec_fn(usize) -> bool, round: Round) -> bool {
    let n = step.state.sockets.len();
    match step.state.phase {
        Phase::Register { keys, next } => {
            &&& keys.len() > 0
            &&& ascending(keys)
            &&& forall|key: usize| #[trigger] keys.contains(key) <==> key < n && test(key)
            &&& next == Next::<Seq<usize>>::Commands(round)
            &&& step.request == (Request::<T>::Register {
                key: keys[0],
                update: step.state.sockets[keys[0] as int].registered,
            })
        },
        Phase::Receive(next) => {
            &&& next == round
            &&& step.request is Receive
            &&& forall|key: usize| key < n ==> !(#[trigger] test(key))
        },
        _ => false,
    }
}

// ---------------------------------------------------------------------------
// The beginning
// ---------------------------------------------------------------------------
/// A new loop has one socket for each token, in the same order, and each socket has the token that
/// was given for it. The poller knows none of them, none rests, and the settings are as they were
/// given.
pub proof fn law_new_loop_takes_settings<T>(
    tx: oneshot::Sender<()>,
    tokens: Seq<Token>,
    testing: bool,
    reporting: bool,
    i: int,
)
    ensures
        ({
            let s = AcceptState::<T>::created(tx, tokens, testing, reporting);
            &&& s.sockets.len() == tokens.len()
            &&& 0 <= i < tokens.len() ==> {
                &&& s.sockets[i].token == tokens[i]
                &&& !s.sockets[i].registered
                &&& s.sockets[i].timeout is None
            }
            &&& s.backlog.len() == 0
            &&& s.backpressure
            &&& s.testing == testing
            &&& s.reporting == reporting
            &&& s.starter == Some(tx)
            &&& s.timers.len() == 0
            &&& s.phase is Created
        }),
{
}

/// A loop begins by registering all its sockets, in order, and nothing else changes. Without sockets
/// it has started: whoever waits for that is answered after 25 milliseconds, and the loop looks for
/// commands.
pub proof fn law_beginning<T>(s: AcceptState<T>)
    requires
        s.wf(),
        s.phase is Created,
    ensures
        ({
            let step = s.begin();
            let n = s.sockets.len();
            &&& step.state == (AcceptState {
                phase: step.state.phase,
                starter: step.state.starter,
                ..s
            })
            &&& if n == 0 {
                &&& step.state.starter is None
                &&& step.state.phase == Phase::<Seq<usize>>::Receive(Round::Before)
                &&& step.request is Receive
                &&& match s.starter {
                    Some(tx) => step.effects == seq![Effect::Answer { tx, delay: 25 }],
                    None => step.effects.len() == 0,
                }
            } else {
                &&& step.state.starter == s.starter
                &&& step.effects.len() == 0
                &&& step.request == (Request::<T>::Register {
                    key: 0,
                    update: s.sockets[0].registered,
                })
                &&& step.state.phase matches Phase::Register { keys, next } && {
                    &&& next is Start
                    &&& keys.len() == n
                    &&& forall|i: int| 0 <= i < n ==> #[trigger] keys[i] == i
                }
            }
        }),
{
    if let Some(tx) = s.starter {
        assert(Seq::<Effect>::empty().push(Effect::Answer { tx, delay: 25 }) =~= seq![
            Effect::Answer { tx, delay: 25 },
        ]);
    }
}

// ---------------------------------------------------------------------------
// The state
// ---------------------------------------------------------------------------
/// Until the loop ends, the record of a socket changes only so: the poller knows it once it has taken
/// its registration; it rests for 500 milliseconds after a lasting error of its own; and its rest is
/// over when back-pressure begins, or when a timer comes after it outside back-pressure. When the
/// loop ends it has no sockets.
pub proof fn law_socket_records<T>(s: AcceptState<T>, event: Event<T>, i: int)
    requires
        s.wf(),
        s.expects(event),
    ensures
        ({
            let before = s.sockets[i];
            let after = s.next(event).state.sockets[i];
            &&& s.next(event).state.sockets.len() == if ends_loop(event) {
                0
            } else {
                s.sockets.len()
            }
            &&& !ends_loop(event) && 0 <= i < s.sockets.len() ==> {
                &&& after.token == before.token
                &&& after.registered <==> before.registered || (event is Registered && i == handled(
                    s,
                ))
                &&& after.timeout == if is_lasting_error(event) && i == handled(s) {
                    Some((moment(event) + 500_000_000) as u128)
                } else if !s.backpressure && s.next(event).state.backpressure {
                    None
                } else if {
                    &&& event matches Event::Command { command, .. } && command is Timer
                    &&& !s.backpressure
                    &&& before.timeout matches Some(until) && moment(event) > until
                } {
                    None
                } else {
                    before.timeout
                }
            }
        }),
{
}

/// A connection that the server does not take goes to the end of the backlog if it was just accepted,
/// and back to its front if it came from there. When the loop is told to resume under
/// back-pressure, and each time the server has taken a connection of the backlog, the oldest one is
/// taken out. Nothing else changes the backlog.
pub proof fn law_backlog<T>(s: AcceptState<T>, event: Event<T>)
    requires
        s.wf(),
        s.expects(event),
    ensures
        ({
            let after = s.next(event).state.backlog;
            let offers = s.backpressure && s.backlog.len() > 0 && match event {
                Event::Command { command, .. } => command is Resume,
                Event::Delivered => s.phase is Drain,
                _ => false,
            };
            match event {
                Event::Refused { connection } => if s.phase is Deliver {
                    after == s.backlog.push(connection)
                } else {
                    after == seq![connection] + s.backlog
                },
                _ => if offers {
                    &&& s.backlog == seq![s.backlog[0]] + after
                    &&& s.next(event).request == (Request::Deliver { connection: s.backlog[0] })
                } else {
                    after == s.backlog
                },
            }
        }),
{
    if s.backlog.len() > 0 {
        assert(s.backlog =~= seq![s.backlog[0]] + s.backlog.drop_first());
    }
}

/// The settings stay. Whoever waits for the start is forgotten exactly when the start is complete.
pub proof fn law_settings_stay<T>(s: AcceptState<T>, event: Event<T>)
    requires
        s.wf(),
        s.expects(event),
    ensures
        s.next(event).state.testing == s.testing,
        s.next(event).state.reporting == s.reporting,
        s.next(event).state.starter == if completes_start(s, event) {
            None
        } else {
            s.starter
        },
{
}

/// A timer is to come after each rest of 500 milliseconds. When back-pressure ends and a socket rests
/// whose timer has come already, one is to come after the last rest. A timer that comes is the
/// oldest one, unless it comes too early for that.
pub proof fn law_timers_to_come<T>(s: AcceptState<T>, event: Event<T>)
    requires
        s.wf(),
        s.expects(event),
    ensures
        ({
            let after = s.next(event).state.timers;
            if is_lasting_error(event) {
                after == s.timers.push((moment(event) + 500_000_000) as u128)
            } else if {
                &&& event matches Event::Command { command, .. } && command is Timer
                &&& s.timers.len() > 0
                &&& moment(event) > s.timers[0]
            } {
                s.timers == seq![s.timers[0]] + after
            } else if takes_pressure_off(s, event) && rests_without_timer(s) {
                &&& after.len() == s.timers.len() + 1
                &&& after.drop_last() == s.timers
                &&& exists|i: int|
                    0 <= i < s.sockets.len() && (#[trigger] s.sockets[i]).timeout == Some(
                        after.last(),
                    )
                &&& forall|i: int|
                    #![trigger s.sockets[i]]
                    0 <= i < s.sockets.len() ==> (s.sockets[i].timeout matches Some(until) ==> until
                        <= after.last())
            } else {
                after == s.timers
            }
        }),
{
    crate::laws::lemma_last_rest(s.sockets);
    crate::effect_laws::lemma_overdue(s);
    if s.timers.len() > 0 {
        assert(s.timers =~= seq![s.timers[0]] + s.timers.drop_first());
    }
    if let Some(until) = crate::model::last_rest(s.sockets) {
        assert(s.timers.push(until).drop_last() =~= s.timers);
    }
}

// ---------------------------------------------------------------------------
// How the loop goes on
// ---------------------------------------------------------------------------
/// When a registration is settled the next socket of the list is registered. After the last one the
/// loop looks for commands, or goes on with the events that it was busy with. A registration that
/// would block is tried again.
pub proof fn law_after_registration<T>(
    s: AcceptState<T>,
    event: Event<T>,
    keys: Seq<usize>,
    next: Next<Seq<usize>>,
)
    requires
        s.wf(),
        s.expects(event),
        s.phase == (Phase::Register { keys, next }),
    ensures
        ({
            let step = s.next(event);
            if event is RegisterFailed && !is_lasting_error(event) {
                &&& step.state == s
                &&& step.request == (Request::<T>::Register {
                    key: keys[0],
                    update: s.sockets[keys[0] as int].registered,
                })
            } else if keys.len() > 1 {
                &&& step.state.phase == (Phase::Register {
                    keys: keys.subrange(1, keys.len() as int),
                    next,
                })
                &&& step.request == (Request::<T>::Register {
                    key: keys[1],
                    update: step.state.sockets[keys[1] as int].registered,
                })
            } else {
                match next {
                    Next::Start => {
                        &&& step.state.phase == Phase::<Seq<usize>>::Receive(Round::Before)
                        &&& step.request is Receive
                    },
                    Next::Commands(round) => {
                        &&& step.state.phase == Phase::<Seq<usize>>::Receive(round)
                        &&& step.request is Receive
                    },
                    Next::Events(rest) => goes_through(step, rest),
                }
            }
        }),
{
}

/// After a command the loop looks for the next one. Before that, when back-pressure ends at once, all
/// sockets that do not rest are registered, and after a timer, outside back-pressure, those whose
/// rest is over. With no command the loop waits for events, or, if it has just handled events, looks
/// for commands once more.
pub proof fn law_after_command<T>(s: AcceptState<T>, event: Event<T>, round: Round)
    requires
        s.wf(),
        s.expects(event),
        s.phase == Phase::<Seq<usize>>::Receive(round),
    ensures
        ({
            let step = s.next(event);
            let again = step.state.phase == s.phase && step.request is Receive;
            match event {
                Event::Command { command, now } => match command {
                    AcceptorCommand::Stop(_) | AcceptorCommand::Terminate => {
                        &&& step.state.phase is Stopped
                        &&& step.request is Finish
                    },
                    AcceptorCommand::Pause => again,
                    AcceptorCommand::Resume => if !s.backpressure {
                        again
                    } else if s.backlog.len() == 0 {
                        registers(
                            step,
                            |key: usize| s.sockets[key as int].timeout is None,
                            round,
                        )
                    } else {
                        &&& step.state.phase == Phase::<Seq<usize>>::Drain(round)
                        &&& step.request == (Request::Deliver { connection: s.backlog[0] })
                    },
                    AcceptorCommand::Timer => registers(
                        step,
                        |key: usize|
                            !s.backpressure && (s.sockets[key as int].timeout matches Some(until)
                                && now > until),
                        round,
                    ),
                },
                Event::Disconnected => {
                    &&& step.state.phase is Stopped
                    &&& step.request is Finish
                },
                _ => match round {
                    Round::Before => step.state.phase is Wait && step.request is Wait,
                    Round::After => {
                        &&& step.state.phase == Phase::<Seq<usize>>::Receive(Round::Before)
                        &&& step.request is Receive
                    },
                },
            }
        }),
{
    if let Event::Command { command, now } = event {
        if command is Resume && s.backpressure && s.backlog.len() == 0 {
            lemma_awake(s, s.update_status(crate::protocol::ServerStatus::Ready), round);
        }
        if command is Timer {
            lemma_due(s, now, round);
        }
    }
}

/// The sockets that are registered when back-pressure ends.
proof fn lemma_awake<T>(s: AcceptState<T>, effects: Seq<Effect>, round: Round)
    requires
        s.wf(),
        s.backpressure,
        s.backlog.len() == 0,
    ensures
        registers(
            s.drain(effects, round),
            |key: usize| s.sockets[key as int].timeout is None,
            round,
        ),
{
    let n = s.sockets.len();
    let test = crate::model::awake(s.sockets);
    let keys = crate::model::all_keys(n).filter(test);
    crate::effect_laws::lemma_picked_in_order(n, test);
    assert forall|key: usize| #[trigger] keys.contains(key) <==> key < n && test(key) by {
        crate::laws::lemma_picked(n, test, key);
    }
    if keys.len() == 0 {
        assert forall|key: usize| key < n implies s.sockets[key as int].timeout is Some by {
            assert(!keys.contains(key));
        }
    }
}

/// The sockets that are registered after a timer.
proof fn lemma_due<T>(s: AcceptState<T>, now: u64, round: Round)
    requires
        s.wf(),
    ensures
        registers(
            s.timers_done(now).register(seq![], s.due(now), Next::Commands(round)),
            |key: usize|
                !s.backpressure && (s.sockets[key as int].timeout matches Some(until) && now
                    > until),
            round,
        ),
{
    let n = s.sockets.len();
    let test = crate::model::expired(s.sockets, now);
    let wakes = |key: usize|
        !s.backpressure && (s.sockets[key as int].timeout matches Some(until) && now > until);
    let keys = s.due(now);
    crate::effect_laws::lemma_picked_in_order(n, test);
    assert forall|key: usize| #[trigger] keys.contains(key) <==> key < n && wakes(key) by {
        crate::laws::lemma_picked(n, test, key);
    }
    if keys.len() == 0 {
        assert forall|key: usize| key < n implies !(#[trigger] wakes(key)) by {
            assert(!keys.contains(key));
        }
    }
}

/// After a wait the loop goes through the events of the sockets that the poller knows, in the order
/// in which they came.
pub proof fn law_after_wait<T>(s: AcceptState<T>, events: Vec<usize>)
    requires
        s.wf(),
        s.phase is Wait,
    ensures
        goes_through(
            s.next(Event::Woken { keys: events }),
            events@.filter(
                |key: usize| key < s.sockets.len() && s.sockets[key as int].registered,
            ),
        ),
{
    assert(crate::model::known(s.sockets) =~= (|key: usize|
        key < s.sockets.len() && s.sockets[key as int].registered));
}

/// An accepted connection is offered to the server with the token of its socket. If there is none,
/// the socket is registered again before the other events. An error of one connection is counted,
/// and the next connection is accepted. After any other error the loop goes on with the other
/// events.
pub proof fn law_after_accept<T>(
    s: AcceptState<T>,
    event: Event<T>,
    keys: Seq<usize>,
    errors: usize,
)
    requires
        s.wf(),
        s.expects(event),
        s.phase == (Phase::Accept { keys, errors }),
    ensures
        ({
            let step = s.next(event);
            let rest = keys.subrange(1, keys.len() as int);
            match event {
                Event::Accepted { io } => {
                    &&& step.state.phase == (Phase::Deliver { keys, errors })
                    &&& step.request == (Request::Deliver {
                        connection: Connection { io, token: s.sockets[keys[0] as int].token },
                    })
                },
                _ => if is_lasting_error(event) {
                    goes_through(step, rest)
                } else if event matches Event::AcceptFailed { kind, .. } && kind
                    != ErrorKind::WouldBlock {
                    &&& step.state.phase == (Phase::Accept { keys, errors: errors.wrapping_add(1) })
                    &&& step.request == (Request::<T>::Accept { key: keys[0] })
                } else {
                    &&& step.state.phase == (Phase::Register {
                        keys: seq![keys[0]],
                        next: Next::Events(rest),
                    })
                    &&& step.request == (Request::<T>::Register {
                        key: keys[0],
                        update: s.sockets[keys[0] as int].registered,
                    })
                },
            }
        }),
{
}

/// When the server has taken a connection the next one is accepted on the same socket. When it has
/// not, the loop goes on with the other events.
pub proof fn law_after_delivery<T>(
    s: AcceptState<T>,
    event: Event<T>,
    keys: Seq<usize>,
    errors: usize,
)
    requires
        s.wf(),
        s.expects(event),
        s.phase == (Phase::Deliver { keys, errors }),
    ensures
        ({
            let step = s.next(event);
            if event is Refused {
                goes_through(step, keys.subrange(1, keys.len() as int))
            } else {
                &&& step.state.phase == (Phase::Accept { keys, errors })
                &&& step.request == (Request::<T>::Accept { key: keys[0] })
            }
        }),
{
}

/// When the server has taken a connection of the backlog the next one is offered, or, if there is
/// none, back-pressure ends and all sockets that do not rest are registered. When it has not, the loop
/// looks for commands.
pub proof fn law_after_backlog<T>(s: AcceptState<T>, event: Event<T>, round: Round)
    requires
        s.wf(),
        s.expects(event),
        s.phase == Phase::<Seq<usize>>::Drain(round),
    ensures
        ({
            let step = s.next(event);
            if event is Refused {
                &&& step.state.phase == Phase::<Seq<usize>>::Receive(round)
                &&& step.request is Receive
                &&& step.state.backpressure
            } else if s.backlog.len() == 0 {
                &&& registers(step, |key: usize| s.sockets[key as int].timeout is None, round)
                &&& !step.state.backpressure
            } else {
                &&& step.state.phase == s.phase
                &&& step.request == (Request::Deliver { connection: s.backlog[0] })
            }
        }),
{
    if event is Delivered && s.backlog.len() == 0 {
        lemma_awake(s, seq![], round);
    }
}

/// The event is an outcome that the request can have.
pub open spec fn is_outcome<T>(request: Request<T>, event: Event<T>) -> bool {
    match request {
        Request::Register { .. } => event is Registered || event is RegisterFailed,
        Request::Receive => event is Command || event is NoCommand || event is Disconnected,
        Request::Wait => event is Woken,
        Request::Accept { .. } => {
            event is Accepted || event is NoConnection || event is AcceptFailed
        },
        Request::Deliver { .. } => event is Delivered || event is Refused,
        Request::Finish => false,
    }
}

/// After a step the loop expects exactly the outcomes of its request.
pub proof fn law_expects_outcomes<T>(s: AcceptState<T>, event: Event<T>, outcome: Event<T>)
    requires
        s.wf(),
        s.expects(event),
    ensures
        s.next(event).state.expects(outcome) <==> is_outcome(s.next(event).request, outcome),
{
}

/// A loop that has begun expects exactly the outcomes of its first request, and before that nothing.
pub proof fn law_beginning_expects_outcomes<T>(s: AcceptState<T>, outcome: Event<T>)
    requires
        s.wf(),
        s.phase is Created,
    ensures
        !s.expects(outcome),
        s.begin().state.expects(outcome) <==> is_outcome(s.begin().request, outcome),
{
}

} // verus!
