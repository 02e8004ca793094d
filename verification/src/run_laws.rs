//! What the accept loop makes of the outcomes of system calls, and what holds of its runs: whose
//! connections it offers, and what it says of itself.
use crate::effect_laws::calls_for_pressure;
use crate::error::{error_kind_of, ErrorKind};
use crate::laws::{answered, request_fits, run};
use crate::model::{AcceptState, Next, Phase, Step};
use crate::protocol::{
    Connection, Effect, Event, Request, ServerStatus, Token, ERR_SLEEP_TIMEOUT, ERR_TIMEOUT,
    EXIT_TIMEOUT, START_TIMEOUT,
};
use std::io;
use vstd::prelude::*;

verus! {

// ---------------------------------------------------------------------------
// Outcomes
// ---------------------------------------------------------------------------
/// What `accept()` answered is carried over without loss: a connection as that connection, no
/// connection as none, and every error as a failure of its kind at that time. In particular only an
/// answer without a connection counts as one, and no error does.
pub proof fn law_accept_outcomes<T>(result: Result<Option<T>, io::Error>, now: u64)
    ensures
        match result {
            Ok(Some(io)) => Event::spec_accepted(result, now) == (Event::Accepted { io }),
            Ok(None) => Event::spec_accepted(result, now) == Event::<T>::NoConnection,
            Err(e) => Event::spec_accepted(result, now) == (Event::<T>::AcceptFailed {
                kind: error_kind_of(e),
                now,
            }),
        },
{
}

/// What the poller answered to a registration is carried over without loss: success as such, and
/// every error as a failure of its kind at that time.
pub proof fn law_registration_outcomes<T>(result: Result<(), io::Error>, now: u64)
    ensures
        match result {
            Ok(_) => Event::<T>::spec_registration(result, now) == Event::<T>::Registered,
            Err(e) => Event::<T>::spec_registration(result, now) == (Event::<T>::RegisterFailed {
                kind: error_kind_of(e),
                now,
            }),
        },
{
}

/// A wait that ended, or that was interrupted, brings exactly the events that came. Any other error is
/// given back as it is.
pub proof fn law_wait_outcomes<T>(result: Result<(), io::Error>, keys: Vec<usize>)
    ensures
        match result {
            Ok(_) => Event::<T>::spec_woken(result, keys) == Ok::<Event<T>, io::Error>(
                Event::Woken { keys },
            ),
            Err(e) => if error_kind_of(e) == ErrorKind::Interrupted {
                Event::<T>::spec_woken(result, keys) == Ok::<Event<T>, io::Error>(
                    Event::Woken { keys },
                )
            } else {
                Event::<T>::spec_woken(result, keys) == Err::<Event<T>, io::Error>(e)
            },
        },
{
}

/// The errors that belong to one connection are those of a connection that was refused, aborted or
/// reset, and no others.
pub proof fn law_connection_errors(kind: ErrorKind)
    ensures
        kind.per_connection() <==> kind == ErrorKind::ConnectionRefused || kind
            == ErrorKind::ConnectionAborted || kind == ErrorKind::ConnectionReset,
{
}

/// From `accept()` to the next step. A connection is offered to the server with the token of its
/// socket. Without a connection the socket is registered again. After an error of one connection
/// `accept()` is done again. After any other error, such as a lack of file descriptors, the socket
/// rests for 500 milliseconds, a timer is asked for, and neither is the socket registered nor
/// `accept()` done on it, unless a further event of it is at hand.
pub proof fn law_accept_result<T>(
    s: AcceptState<T>,
    keys: Seq<usize>,
    errors: usize,
    result: Result<Option<T>, io::Error>,
    now: u64,
)
    requires
        s.wf(),
        s.phase == (Phase::Accept { keys, errors }),
    ensures
        ({
            let step = s.next(Event::spec_accepted(result, now));
            let key = keys[0];
            let again = step.request == (Request::<T>::Register {
                key,
                update: s.sockets[key as int].registered,
            });
            match result {
                Ok(Some(io)) => step.request == (Request::Deliver {
                    connection: Connection { io, token: s.sockets[key as int].token },
                }),
                Ok(None) => again && step.effects.len() == 0 && step.state.sockets == s.sockets,
                Err(e) => match error_kind_of(e) {
                    ErrorKind::WouldBlock => again && step.effects.len() == 0 && step.state.sockets
                        == s.sockets,
                    ErrorKind::ConnectionRefused
                    | ErrorKind::ConnectionAborted
                    | ErrorKind::ConnectionReset => {
                        &&& step.request == (Request::<T>::Accept { key })
                        &&& step.state.sockets == s.sockets
                        &&& step.state.timers == s.timers
                    },
                    ErrorKind::Interrupted | ErrorKind::Other => {
                        &&& step.state.sockets[key as int].timeout == Some(
                            (now + 500_000_000) as u128,
                        )
                        &&& step.effects.contains(Effect::ScheduleTimer)
                        &&& !(step.request is Register)
                        &&& step.request == (Request::<T>::Accept { key }) ==> keys.len() > 1
                            && keys[1] == key
                    },
                },
            }
        }),
{
    let event = Event::spec_accepted(result, now);
    crate::step_laws::law_after_accept(s, event, keys, errors);
    crate::step_laws::law_socket_records(s, event, keys[0] as int);
    crate::effect_laws::law_timer_requests(s, event);
}

/// From the poller's answer to a registration to the next step. If it took the registration it knows
/// the socket. If it would have had to block, the same registration is tried again. After any other
/// error the socket rests for 500 milliseconds, and a timer is asked for.
pub proof fn law_registration_result<T>(
    s: AcceptState<T>,
    keys: Seq<usize>,
    next: Next<Seq<usize>>,
    result: Result<(), io::Error>,
    now: u64,
)
    requires
        s.wf(),
        s.phase == (Phase::Register { keys, next }),
    ensures
        ({
            let step = s.next(Event::spec_registration(result, now));
            let key = keys[0];
            match result {
                Ok(_) => {
                    &&& step.state.sockets[key as int].registered
                    &&& step.state.sockets[key as int].timeout == s.sockets[key as int].timeout
                },
                Err(e) => if error_kind_of(e) == ErrorKind::WouldBlock {
                    &&& step.state == s
                    &&& step.effects.len() == 0
                    &&& step.request == (Request::<T>::Register {
                        key,
                        update: s.sockets[key as int].registered,
                    })
                } else {
                    &&& step.state.sockets[key as int].registered
                        == s.sockets[key as int].registered
                    &&& step.state.sockets[key as int].timeout == Some((now + 500_000_000) as u128)
                    &&& step.effects.contains(Effect::ScheduleTimer)
                },
            }
        }),
{
    let event = Event::spec_registration(result, now);
    crate::step_laws::law_after_registration(s, event, keys, next);
    crate::step_laws::law_socket_records(s, event, keys[0] as int);
    crate::effect_laws::law_timer_requests(s, event);
}

/// A socket rests for 500 milliseconds, and its timer comes 525 milliseconds after it was asked for.
/// The start is told after 25 milliseconds, the stop after 100.
pub proof fn law_delays()
    ensures
        ERR_TIMEOUT == 500 * 1_000_000,
        ERR_SLEEP_TIMEOUT == 525,
        START_TIMEOUT == 25,
        EXIT_TIMEOUT == 100,
{
}

// ---------------------------------------------------------------------------
// Tokens
// ---------------------------------------------------------------------------
/// In a run of a new loop, until it ends, each socket has the token that was given for it.
pub proof fn law_sockets_keep_their_tokens<T>(
    tx: oneshot::Sender<()>,
    tokens: Seq<Token>,
    testing: bool,
    reporting: bool,
    events: Seq<Event<T>>,
    i: int,
)
    requires
        tokens.len() <= usize::MAX,
        answered(AcceptState::<T>::created(tx, tokens, testing, reporting).begin(), events),
        0 <= i < tokens.len(),
    ensures
        ({
            let first = AcceptState::<T>::created(tx, tokens, testing, reporting).begin();
            !(run(first, events).state.phase is Stopped) ==> {
                &&& run(first, events).state.sockets.len() == tokens.len()
                &&& run(first, events).state.sockets[i].token == tokens[i]
            }
        }),
    decreases events.len(),
{
    let s = AcceptState::<T>::created(tx, tokens, testing, reporting);
    let first = s.begin();
    crate::laws::law_new_loop::<T>(tx, tokens, testing, reporting);
    crate::step_laws::law_new_loop_takes_settings::<T>(tx, tokens, testing, reporting, i);
    if events.len() == 0 {
        crate::step_laws::law_beginning(s);
    } else {
        let fewer = events.drop_last();
        let before = run(first, fewer);
        law_sockets_keep_their_tokens(tx, tokens, testing, reporting, fewer, i);
        crate::laws::law_runs_stay_valid(first, fewer);
        crate::laws::law_answers_are_expected(before, events.last());
        crate::step_laws::law_socket_records(before.state, events.last(), i);
        crate::effect_laws::law_release(before.state, events.last(), 0);
    }
}

/// A connection goes to the service of the socket on which it was accepted: whenever a new loop, after
/// whatever events, accepts on the socket with some key, it offers the connection with the token that
/// was given for that socket.
pub proof fn law_connections_carry_their_token<T>(
    tx: oneshot::Sender<()>,
    tokens: Seq<Token>,
    testing: bool,
    reporting: bool,
    events: Seq<Event<T>>,
    key: usize,
    io: T,
)
    requires
        tokens.len() <= usize::MAX,
        answered(AcceptState::<T>::created(tx, tokens, testing, reporting).begin(), events),
        run(
            AcceptState::<T>::created(tx, tokens, testing, reporting).begin(),
            events,
        ).request == (Request::<T>::Accept { key }),
    ensures
        key < tokens.len(),
        run(
            AcceptState::<T>::created(tx, tokens, testing, reporting).begin(),
            events.push(Event::Accepted { io }),
        ).request == (Request::Deliver { connection: Connection { io, token: tokens[key as int] } }),
{
    let first = AcceptState::<T>::created(tx, tokens, testing, reporting).begin();
    let step = run(first, events);
    crate::laws::law_new_loop::<T>(tx, tokens, testing, reporting);
    crate::laws::law_runs_stay_valid(first, events);
    let longer = events.push(Event::Accepted { io });
    assert(longer.drop_last() =~= events);
    if tokens.len() > 0 {
        law_sockets_keep_their_tokens(tx, tokens, testing, reporting, events, 0);
        if key < tokens.len() {
            law_sockets_keep_their_tokens(tx, tokens, testing, reporting, events, key as int);
        }
    } else {
        lemma_no_sockets(first, events);
    }
    if let Phase::Accept { keys, errors } = step.state.phase {
        crate::step_laws::law_after_accept(step.state, Event::Accepted { io }, keys, errors);
    }
}

/// A loop without sockets never has any.
proof fn lemma_no_sockets<T>(first: Step<T>, events: Seq<Event<T>>)
    requires
        first.state.wf(),
        request_fits(first),
        first.state.sockets.len() == 0,
        answered(first, events),
    ensures
        run(first, events).state.sockets.len() == 0,
    decreases events.len(),
{
    if events.len() > 0 {
        let before = run(first, events.drop_last());
        lemma_no_sockets(first, events.drop_last());
        crate::laws::law_runs_stay_valid(first, events.drop_last());
        crate::laws::law_answers_are_expected(before, events.last());
        crate::step_laws::law_socket_records(before.state, events.last(), 0);
    }
}

// ---------------------------------------------------------------------------
// Status
// ---------------------------------------------------------------------------
/// The last status that was reported in a run, after its first step.
pub open spec fn last_status<T>(first: Step<T>, events: Seq<Event<T>>) -> Option<ServerStatus>
    decreases events.len(),
{
    if events.len() == 0 {
        None
    } else {
        let effects = run(first, events).effects;
        if effects.contains(Effect::Status(ServerStatus::NotReady)) {
            Some(ServerStatus::NotReady)
        } else if effects.contains(Effect::Status(ServerStatus::Ready)) {
            Some(ServerStatus::Ready)
        } else {
            last_status(first, events.drop_last())
        }
    }
}

/// Whoever wants to know the status knows it: as long as a loop that began under back-pressure is not
/// under back-pressure, what it reported last is that it is ready; and once back-pressure was called
/// for, what it reported last is that it is not, until it is told to resume.
pub proof fn law_last_status<T>(first: Step<T>, events: Seq<Event<T>>)
    requires
        first.state.wf(),
        request_fits(first),
        first.state.backpressure,
        first.state.reporting,
        !(first.state.phase is Drain),
        answered(first, events),
    ensures
        run(first, events).state.reporting,
        !run(first, events).state.backpressure || run(first, events).state.phase is Drain
            ==> last_status(first, events) == Some(ServerStatus::Ready),
        events.len() > 0 && calls_for_pressure(
            run(first, events.drop_last()).state,
            events.last(),
        ) ==> last_status(first, events) == Some(ServerStatus::NotReady),
        events.len() > 0 && !calls_for_pressure(
            run(first, events.drop_last()).state,
            events.last(),
        ) && !(events.last() matches Event::Command { command, .. } && command is Resume)
            ==> last_status(first, events) == last_status(first, events.drop_last()),
    decreases events.len(),
{
    if events.len() > 0 {
        let before = run(first, events.drop_last());
        let event = events.last();
        law_last_status(first, events.drop_last());
        crate::laws::law_runs_stay_valid(first, events.drop_last());
        crate::laws::law_answers_are_expected(before, event);
        crate::effect_laws::law_status(before.state, event);
        crate::effect_laws::law_pressure(before.state, event);
        crate::step_laws::law_settings_stay(before.state, event);
        match before.state.phase {
            Phase::Receive(round) => {
                crate::step_laws::law_after_command(before.state, event, round);
            },
            _ => {},
        }
    }
}

/// Nobody hears of the status who does not want to: without that, no step of a run reports it.
pub proof fn law_unwanted_status<T>(first: Step<T>, events: Seq<Event<T>>)
    requires
        first.state.wf(),
        request_fits(first),
        !first.state.reporting,
        answered(first, events),
    ensures
        !run(first, events).state.reporting,
        last_status(first, events) is None,
    decreases events.len(),
{
    if events.len() > 0 {
        let before = run(first, events.drop_last());
        law_unwanted_status(first, events.drop_last());
        crate::laws::law_runs_stay_valid(first, events.drop_last());
        crate::laws::law_answers_are_expected(before, events.last());
        crate::effect_laws::law_status(before.state, events.last());
        crate::step_laws::law_settings_stay(before.state, events.last());
    }
}

} // verus!
