//! What holds of the accept loop as a whole.
use crate::accept_loop::LoopState;
use crate::command::AcceptorCommand;
use crate::error::ErrorKind;
use crate::model::{AcceptState, Next, Phase, Round, Step};
use crate::notify::NotifyState;
use crate::protocol::{
    Connection, Effect, Event, Request, ServerSocketInfo, ServerStatus, Token, ERR_SLEEP_TIMEOUT,
    ERR_TIMEOUT, EXIT_TIMEOUT, START_TIMEOUT,
};
use vstd::multiset::Multiset;
use vstd::prelude::*;

verus! {

/// What a filter lets through names sockets, if each key that passes the test does.
pub(crate) proof fn lemma_filter_in_range(keys: Seq<usize>, test: spec_fn(usize) -> bool, n: nat)
    requires
        forall|i: int| 0 <= i < keys.len() && test(keys[i]) ==> keys[i] < n,
    ensures
        crate::model::in_range(keys.filter(test), n),
    decreases keys.len(),
{
    reveal(Seq::filter);
    if keys.len() > 0 {
        lemma_filter_in_range(keys.drop_last(), test, n);
    }
}

/// A list of keys that is in range stays so without its first key.
proof fn lemma_rest_in_range(keys: Seq<usize>, n: nat)
    requires
        keys.len() > 0,
        crate::model::in_range(keys, n),
    ensures
        crate::model::in_range(keys.drop_first(), n),
{
    assert forall|i: int| 0 <= i < keys.drop_first().len() implies #[trigger] keys.drop_first()[i]
        < n by {
        assert(keys.drop_first()[i] == keys[i + 1]);
    }
}

/// The keys of all sockets, and those that a test picks, name sockets.
proof fn lemma_picked_in_range(n: nat, test: spec_fn(usize) -> bool)
    requires
        n <= usize::MAX,
    ensures
        crate::model::in_range(crate::model::all_keys(n), n),
        crate::model::in_range(crate::model::all_keys(n).filter(test), n),
{
    lemma_filter_in_range(crate::model::all_keys(n), test, n);
}

/// The first step of a new loop ends in a valid state.
pub proof fn law_beginning_is_valid<T>(s: AcceptState<T>)
    requires
        s.wf(),
        s.phase is Created,
    ensures
        s.begin().state.wf(),
{
    lemma_picked_in_range(s.sockets.len(), |k: usize| true);
}

/// The time until which the last of the resting sockets rests is not before that of any other.
pub(crate) proof fn lemma_last_rest(sockets: Seq<ServerSocketInfo>)
    ensures
        match crate::model::last_rest(sockets) {
            None => forall|i: int|
                0 <= i < sockets.len() ==> (#[trigger] sockets[i]).timeout is None,
            Some(last) => {
                &&& exists|i: int|
                    0 <= i < sockets.len() && (#[trigger] sockets[i]).timeout == Some(last)
                &&& forall|i: int|
                    #![trigger sockets[i]]
                    0 <= i < sockets.len() ==> (sockets[i].timeout matches Some(until) ==> until
                        <= last)
            },
        },
    decreases sockets.len(),
{
    if sockets.len() > 0 {
        let n = sockets.len() - 1;
        let fewer = sockets.drop_last();
        lemma_last_rest(fewer);
        assert forall|i: int| 0 <= i < n implies fewer[i] == #[trigger] sockets[i] by {}
        assert(sockets[n] == sockets.last());
    }
}

/// A timer stays awaited when another one is asked for, and when an earlier one comes.
proof fn lemma_still_awaited<T>(s: AcceptState<T>, until: u128, other: u128, now: u64)
    requires
        crate::model::awaited(s.timers, until),
    ensures
        crate::model::awaited(s.timers.push(other), until),
        now <= until ==> crate::model::awaited(s.timers_left(now), until),
{
    let i = choose|i: int| 0 <= i < s.timers.len() && #[trigger] s.timers[i] >= until;
    assert(s.timers.push(other)[i] >= until);
    if now <= until && s.timers_left(now) != s.timers {
        assert(s.timers_left(now)[i - 1] >= until);
    }
}

/// A timer that is asked for is awaited.
proof fn lemma_asked_is_awaited(timers: Seq<u128>, until: u128)
    ensures
        crate::model::awaited(timers.push(until), until),
{
    assert(timers.push(until)[timers.len() as int] >= until);
}

/// In a valid state, and after any event, a socket that rests outside back-pressure does so only
/// while a timer is to come after its rest.
proof fn lemma_stays_awaited<T>(s: AcceptState<T>, event: Event<T>, key: int, until: u128)
    requires
        s.wf(),
        s.expects(event),
        !s.next(event).state.backpressure,
        0 <= key < s.next(event).state.sockets.len(),
        s.next(event).state.sockets[key].timeout == Some(until),
    ensures
        crate::model::awaited(s.next(event).state.timers, until),
{
    lemma_asked_is_awaited(s.timers, until);
    match event {
        Event::RegisterFailed { now, .. } | Event::AcceptFailed { now, .. } => {
            if crate::model::awaited(s.timers, until) {
                lemma_still_awaited(s, until, (now + ERR_TIMEOUT) as u128, now);
            }
        },
        Event::Command { now, .. } => {
            if crate::model::awaited(s.timers, until) {
                lemma_still_awaited(s, until, until, now);
            }
        },
        _ => {},
    }
    if s.backpressure {
        lemma_last_rest(s.sockets);
        assert(s.sockets[key].timeout == Some(until));
        if let Some(last) = crate::model::last_rest(s.sockets) {
            lemma_asked_is_awaited(s.timers, last);
            assert(until <= last);
        }
    }
}

/// Whatever happens, the loop goes from a valid state to a valid state: pending keys name
/// sockets, connections are held back only under back-pressure, and outside back-pressure a socket
/// rests only while a timer is to come after its rest.
pub proof fn law_state_stays_valid<T>(s: AcceptState<T>, event: Event<T>)
    requires
        s.wf(),
        s.expects(event),
    ensures
        s.next(event).state.wf(),
{
    let n = s.sockets.len();
    let after = s.next(event).state;
    assert forall|i: int|
        #![trigger after.sockets[i]]
        0 <= i < after.sockets.len() && !after.backpressure implies (
    after.sockets[i].timeout matches Some(until) ==> crate::model::awaited(
        after.timers,
        until,
    )) by {
        if let Some(until) = after.sockets[i].timeout {
            lemma_stays_awaited(s, event, i, until);
        }
    }
    match s.phase {
        Phase::Register { keys, .. } | Phase::Accept { keys, .. } | Phase::Deliver { keys, .. } => {
            lemma_rest_in_range(keys, n);
        },
        Phase::Receive(_) => {
            lemma_picked_in_range(n, crate::model::awake(s.sockets));
            if let Event::Command { now, .. } = event {
                lemma_picked_in_range(n, crate::model::expired(s.sockets, now));
            }
        },
        Phase::Drain(_) => {
            lemma_picked_in_range(n, crate::model::awake(s.sockets));
        },
        Phase::Wait => {
            if let Event::Woken { keys } = event {
                lemma_filter_in_range(keys@, crate::model::known(s.sockets), n);
            }
        },
        _ => {},
    }
}

// ---------------------------------------------------------------------------
// Runs
// ---------------------------------------------------------------------------
/// Where the loop is after `first` and the events that answered its requests since.
pub open spec fn run<T>(first: Step<T>, events: Seq<Event<T>>) -> Step<T>
    decreases events.len(),
{
    if events.len() == 0 {
        first
    } else {
        run(first, events.drop_last()).state.next(events.last())
    }
}

/// Each of the events answers the request before it.
pub open spec fn answered<T>(first: Step<T>, events: Seq<Event<T>>) -> bool
    decreases events.len(),
{
    events.len() > 0 ==> {
        &&& answered(first, events.drop_last())
        &&& run(first, events.drop_last()).request.answered_by(events.last())
    }
}

/// The request of a step is the one that its state waits for. The poller is told of a socket
/// that it knows only by an update, and of one that it does not know only by an addition.
pub open spec fn request_fits<T>(step: Step<T>) -> bool {
    match step.state.phase {
        Phase::Created => false,
        Phase::Register { keys, .. } => step.request == (Request::<T>::Register {
            key: keys[0],
            update: step.state.sockets[keys[0] as int].registered,
        }),
        Phase::Receive(_) => step.request is Receive,
        Phase::Wait => step.request is Wait,
        Phase::Accept { keys, .. } => step.request == (Request::<T>::Accept { key: keys[0] }),
        Phase::Deliver { .. } | Phase::Drain(_) => step.request is Deliver,
        Phase::Stopped => step.request is Finish,
    }
}

/// Every step makes the request that its state waits for.
pub proof fn law_request_fits<T>(s: AcceptState<T>, event: Event<T>)
    requires
        s.wf(),
        s.expects(event),
    ensures
        request_fits(s.next(event)),
{
}

/// An answer to the request of a step is an event that its state expects.
pub proof fn law_answers_are_expected<T>(step: Step<T>, event: Event<T>)
    requires
        request_fits(step),
        step.request.answered_by(event),
    ensures
        step.state.expects(event),
{
}

/// However long the loop runs, it is in a valid state and waits for the answer to its request.
pub proof fn law_runs_stay_valid<T>(first: Step<T>, events: Seq<Event<T>>)
    requires
        first.state.wf(),
        request_fits(first),
        answered(first, events),
    ensures
        run(first, events).state.wf(),
        request_fits(run(first, events)),
    decreases events.len(),
{
    if events.len() > 0 {
        let before = run(first, events.drop_last());
        law_runs_stay_valid(first, events.drop_last());
        law_answers_are_expected(before, events.last());
        law_state_stays_valid(before.state, events.last());
        law_request_fits(before.state, events.last());
    }
}

/// A new loop is valid, its first step makes the request that its state waits for, it holds no
/// connection, no socket rests, and no timer is to come.
pub proof fn law_new_loop<T>(
    tx: oneshot::Sender<()>,
    tokens: Seq<Token>,
    testing: bool,
    reporting: bool,
)
    requires
        tokens.len() <= usize::MAX,
    ensures
        AcceptState::<T>::created(tx, tokens, testing, reporting).wf(),
        AcceptState::<T>::created(tx, tokens, testing, reporting).begin().state.wf(),
        request_fits(AcceptState::<T>::created(tx, tokens, testing, reporting).begin()),
        held(AcceptState::<T>::created(tx, tokens, testing, reporting).begin()) == Multiset::<
            Connection<T>,
        >::empty(),
        crate::model::last_rest(
            AcceptState::<T>::created(tx, tokens, testing, reporting).begin().state.sockets,
        ) is None,
        AcceptState::<T>::created(tx, tokens, testing, reporting).begin().state.timers.len() == 0,
{
    broadcast use vstd::seq_lib::group_to_multiset_ensures;

    let s = AcceptState::<T>::created(tx, tokens, testing, reporting);
    law_beginning_is_valid(s);
    lemma_last_rest(s.sockets);
    assert(s.backlog.to_multiset() =~= Multiset::empty()) by {
        assert(s.backlog.to_multiset().len() == 0);
    }
}

/// The effects of a run, after those of its first step.
pub open spec fn effects_of<T>(first: Step<T>, events: Seq<Event<T>>) -> Seq<Effect>
    decreases events.len(),
{
    if events.len() == 0 {
        seq![]
    } else {
        effects_of(first, events.drop_last()) + run(first, events).effects
    }
}

/// What a run asks of poller, sockets and server, after the request of its first step. Looking
/// into the command queue asks nothing of them.
pub open spec fn calls_of<T>(first: Step<T>, events: Seq<Event<T>>) -> Seq<Request<T>>
    decreases events.len(),
{
    if events.len() == 0 {
        seq![]
    } else if run(first, events).request is Receive {
        calls_of(first, events.drop_last())
    } else {
        calls_of(first, events.drop_last()).push(run(first, events).request)
    }
}

/// A run can be cut in two.
proof fn lemma_cut<T>(first: Step<T>, head: Seq<Event<T>>, tail: Seq<Event<T>>)
    ensures
        run(first, head + tail) == run(run(first, head), tail),
        effects_of(first, head + tail) == effects_of(first, head) + effects_of(
            run(first, head),
            tail,
        ),
        calls_of(first, head + tail) == calls_of(first, head) + calls_of(run(first, head), tail),
    decreases tail.len(),
{
    if tail.len() == 0 {
        assert(head + tail =~= head);
        assert(effects_of(first, head) + Seq::<Effect>::empty() =~= effects_of(first, head));
        assert(calls_of(first, head) + Seq::<Request<T>>::empty() =~= calls_of(first, head));
    } else {
        lemma_cut(first, head, tail.drop_last());
        assert((head + tail).drop_last() =~= head + tail.drop_last());
        let middle = run(first, head);
        let last = run(middle, tail);
        assert(effects_of(first, head) + effects_of(middle, tail.drop_last()) + last.effects
            =~= effects_of(first, head) + (effects_of(middle, tail.drop_last()) + last.effects));
        assert((calls_of(first, head) + calls_of(middle, tail.drop_last())).push(last.request)
            =~= calls_of(first, head) + calls_of(middle, tail.drop_last()).push(last.request));
    }
}

/// How a run goes on depends on the state alone.
proof fn lemma_same_state_same_run<T>(a: Step<T>, b: Step<T>, events: Seq<Event<T>>)
    requires
        a.state == b.state,
    ensures
        run(a, events).state == run(b, events).state,
        events.len() > 0 ==> run(a, events) == run(b, events),
        effects_of(a, events) == effects_of(b, events),
        calls_of(a, events) == calls_of(b, events),
    decreases events.len(),
{
    if events.len() > 0 {
        lemma_same_state_same_run(a, b, events.drop_last());
    }
}

/// An event that leads back to the same state, with no effect, can be left out of a run.
proof fn lemma_leave_out<T>(
    first: Step<T>,
    head: Seq<Event<T>>,
    idle: Event<T>,
    tail: Seq<Event<T>>,
)
    requires
        run(first, head).state.next(idle).state == run(first, head).state,
        run(first, head).state.next(idle).effects.len() == 0,
    ensures
        run(first, head + seq![idle] + tail).state == run(first, head + tail).state,
        effects_of(first, head + seq![idle] + tail) == effects_of(first, head + tail),
        run(first, head).state.next(idle).request is Receive ==> calls_of(
            first,
            head + seq![idle] + tail,
        ) == calls_of(first, head + tail),
{
    let before = run(first, head);
    let longer = head + seq![idle];
    assert(longer.drop_last() =~= head);
    assert(longer.last() == idle);
    let after = run(first, longer);
    assert(after == before.state.next(idle));
    lemma_cut(first, longer, tail);
    lemma_cut(first, head, tail);
    lemma_same_state_same_run(before, after, tail);
    assert(effects_of(first, longer) =~= effects_of(first, head));
}

// ---------------------------------------------------------------------------
// Connections
// ---------------------------------------------------------------------------
/// The connections that were accepted during a run.
pub open spec fn accepted<T>(first: Step<T>, events: Seq<Event<T>>) -> Multiset<Connection<T>>
    decreases events.len(),
{
    if events.len() == 0 {
        Multiset::empty()
    } else {
        let state = run(first, events.drop_last()).state;
        let earlier = accepted(first, events.drop_last());
        match (state.phase, events.last()) {
            (Phase::Accept { keys, .. }, Event::Accepted { io }) => earlier.insert(
                Connection { io, token: state.sockets[keys[0] as int].token },
            ),
            _ => earlier,
        }
    }
}

/// The connections that the server took during a run.
pub open spec fn delivered<T>(first: Step<T>, events: Seq<Event<T>>) -> Multiset<Connection<T>>
    decreases events.len(),
{
    if events.len() == 0 {
        Multiset::empty()
    } else {
        let earlier = delivered(first, events.drop_last());
        match (run(first, events.drop_last()).request, events.last()) {
            (Request::Deliver { connection }, Event::Delivered) => earlier.insert(connection),
            _ => earlier,
        }
    }
}

/// The connections that the loop holds: the backlog, and the one being offered to the server.
pub open spec fn held<T>(step: Step<T>) -> Multiset<Connection<T>> {
    match step.request {
        Request::Deliver { connection } => step.state.backlog.to_multiset().insert(connection),
        _ => step.state.backlog.to_multiset(),
    }
}

/// One step keeps the connections that it does not hand over.
proof fn lemma_step_keeps_connections<T>(step: Step<T>, event: Event<T>)
    requires
        step.state.wf(),
        request_fits(step),
        step.request.answered_by(event),
    ensures
        match event {
            Event::Accepted { io } => held(step.state.next(event)) == held(step).insert(
                Connection {
                    io,
                    token: step.state.sockets[step.state.phase->Accept_keys[0] as int].token,
                },
            ),
            Event::Delivered => held(step) == held(step.state.next(event)).insert(
                step.request->connection,
            ),
            _ => held(step) == held(step.state.next(event)),
        },
{
    broadcast use vstd::seq_lib::group_to_multiset_ensures;

    let backlog = step.state.backlog;
    if backlog.len() > 0 {
        let rest = backlog.drop_first();
        assert(backlog =~= seq![backlog[0]] + rest);
        vstd::seq_lib::lemma_multiset_commutative(seq![backlog[0]], rest);
        assert(seq![backlog[0]] =~= Seq::<Connection<T>>::empty().push(backlog[0]));
        assert(backlog.to_multiset() =~= rest.to_multiset().insert(backlog[0]));
    }
    if let Event::Refused { connection } = event {
        vstd::seq_lib::lemma_multiset_commutative(seq![connection], backlog);
        assert(seq![connection] =~= Seq::<Connection<T>>::empty().push(connection));
        assert((seq![connection] + backlog).to_multiset() =~= backlog.to_multiset().insert(
            connection,
        ));
    }
    if let Event::Delivered = event {
        assert(held(step) =~= held(step.state.next(event)).insert(step.request->connection));
    }
}

/// No connection is lost or doubled: at any time, those that the loop accepted are those that
/// the server took together with those that the loop still holds.
pub proof fn law_connections_are_kept<T>(first: Step<T>, events: Seq<Event<T>>)
    requires
        first.state.wf(),
        request_fits(first),
        held(first) == Multiset::<Connection<T>>::empty(),
        answered(first, events),
    ensures
        accepted(first, events) == delivered(first, events).add(held(run(first, events))),
    decreases events.len(),
{
    if events.len() > 0 {
        let before = run(first, events.drop_last());
        law_connections_are_kept(first, events.drop_last());
        law_runs_stay_valid(first, events.drop_last());
        law_answers_are_expected(before, events.last());
        lemma_step_keeps_connections(before, events.last());
    }
    assert(accepted(first, events) =~= delivered(first, events).add(held(run(first, events))));
}

/// A connection of the backlog that the server does not take goes back to where it was: the loop
/// is as it was before it was told to resume.
pub proof fn law_refused_backlog_is_restored<T>(s: AcceptState<T>, round: Round, now: u64)
    requires
        s.wf(),
        s.phase == Phase::<Seq<usize>>::Receive(round),
        s.backpressure,
        s.backlog.len() > 0,
    ensures
        ({
            let offer = s.next(Event::Command { command: AcceptorCommand::Resume, now });
            let refused = offer.state.next(Event::Refused { connection: s.backlog[0] });
            &&& offer.request == (Request::Deliver { connection: s.backlog[0] })
            &&& refused.state == s
            &&& refused.request is Receive
            &&& refused.effects.len() == 0
        }),
{
    assert(seq![s.backlog[0]] + s.backlog.drop_first() =~= s.backlog);
}

/// The backlog goes out in the order in which it came in: after `n` of its connections were
/// taken, the loop offers the next one and holds back the later ones.
pub proof fn law_backlog_goes_out_in_order<T>(
    s: AcceptState<T>,
    effects: Seq<Effect>,
    round: Round,
    n: nat,
)
    requires
        s.wf(),
        n < s.backlog.len(),
    ensures
        ({
            let step = run(s.drain(effects, round), Seq::new(n, |i: int| Event::Delivered));
            &&& step.request == (Request::Deliver { connection: s.backlog[n as int] })
            &&& step.state.backlog == s.backlog.skip((n + 1) as int)
            &&& step.state.phase == Phase::<Seq<usize>>::Drain(round)
        }),
    decreases n,
{
    let taken = Seq::new(n, |i: int| Event::<T>::Delivered);
    if n == 0 {
        assert(s.backlog.drop_first() =~= s.backlog.skip(1));
    } else {
        law_backlog_goes_out_in_order(s, effects, round, (n - 1) as nat);
        assert(taken.drop_last() =~= Seq::new((n - 1) as nat, |i: int| Event::<T>::Delivered));
        assert(s.backlog.skip(n as int).drop_first() =~= s.backlog.skip((n + 1) as int));
    }
}

// ---------------------------------------------------------------------------
// Back-pressure
// ---------------------------------------------------------------------------
/// A key is among those that a test picks exactly when it names a socket and passes the test.
pub(crate) proof fn lemma_picked(n: nat, test: spec_fn(usize) -> bool, key: usize)
    requires
        n <= usize::MAX,
    ensures
        crate::model::all_keys(n).filter(test).contains(key) <==> key < n && test(key),
{
    let keys = crate::model::all_keys(n);
    if keys.filter(test).contains(key) {
        keys.lemma_filter_contains_rev(test, key);
        let i = choose|i: int| 0 <= i < keys.filter(test).len() && keys.filter(test)[i] == key;
        keys.lemma_filter_pred(test, i);
    }
    if key < n && test(key) {
        assert(keys[key as int] == key);
        keys.lemma_filter_contains(test, key as int);
    }
}

/// A filter that lets every element through changes nothing.
proof fn lemma_filter_all(keys: Seq<usize>, test: spec_fn(usize) -> bool)
    requires
        forall|i: int| 0 <= i < keys.len() ==> test(#[trigger] keys[i]),
    ensures
        keys.filter(test) == keys,
    decreases keys.len(),
{
    reveal(Seq::filter);
    if keys.len() > 0 {
        lemma_filter_all(keys.drop_last(), test);
        assert(test(keys[keys.len() - 1]));
        assert(keys.drop_last().push(keys.last()) =~= keys);
    }
}

/// Back-pressure begins when the loop is told to pause or to end, or when the server does not
/// take a connection. It ends only when the server has taken the whole backlog after the loop
/// was told to resume.
pub proof fn law_back_pressure_changes<T>(s: AcceptState<T>, event: Event<T>)
    requires
        s.wf(),
        s.expects(event),
    ensures
        !s.backpressure && s.next(event).state.backpressure ==> match event {
            Event::Command { command, .. } => {
                command is Pause || command is Stop || command is Terminate
            },
            Event::Disconnected | Event::Refused { .. } => true,
            _ => false,
        },
        s.backpressure && !s.next(event).state.backpressure ==> s.backlog.len() == 0 && match event {
            Event::Command { command, .. } => command is Resume,
            Event::Delivered => s.phase is Drain,
            _ => false,
        },
{
}

/// When back-pressure begins, the poller is told to forget exactly the sockets that it watches,
/// and no socket rests any more.
pub proof fn law_back_pressure_disables<T>(s: AcceptState<T>, key: usize)
    requires
        s.wf(),
        !s.backpressure,
    ensures
        s.press().contains(Effect::Disable { key }) <==> {
            &&& key < s.sockets.len()
            &&& s.sockets[key as int].registered
            &&& s.sockets[key as int].timeout is None
        },
        forall|i: int|
            0 <= i < s.sockets.len() ==> (#[trigger] s.pressed().sockets[i]).timeout is None,
{
    let test = crate::model::watched(s.sockets);
    let picked = crate::model::all_keys(s.sockets.len()).filter(test);
    let disable = |key: usize| Effect::Disable { key };
    let report = s.update_status(ServerStatus::NotReady);
    lemma_picked(s.sockets.len(), test, key);
    assert(s.press() == report + picked.map_values(disable));
    if picked.contains(key) {
        let i = choose|i: int| 0 <= i < picked.len() && picked[i] == key;
        assert(s.press()[report.len() + i] == disable(key));
    }
    if s.press().contains(Effect::Disable { key }) {
        let i = choose|i: int|
            0 <= i < s.press().len() && s.press()[i] == (Effect::Disable { key });
        assert(i >= report.len());
        assert(picked[i - report.len()] == key);
    }
}

/// Pausing a loop that is under back-pressure does nothing, and neither does resuming one that
/// is not.
pub proof fn law_repeated_commands_do_nothing<T>(s: AcceptState<T>, round: Round, now: u64)
    requires
        s.wf(),
        s.phase == Phase::<Seq<usize>>::Receive(round),
    ensures
        ({
            let command = if s.backpressure {
                AcceptorCommand::Pause
            } else {
                AcceptorCommand::Resume
            };
            let step = s.next(Event::Command { command, now });
            &&& step.state == s
            &&& step.effects.len() == 0
            &&& step.request is Receive
        }),
{
}

/// A repeated `Pause`, or a `Resume` without back-pressure, can be put into the queue anywhere: the
/// loop ends in the same state, has the same effects, and asks the same of poller, sockets and
/// server.
pub proof fn law_repeated_commands_change_no_run<T>(
    first: Step<T>,
    head: Seq<Event<T>>,
    tail: Seq<Event<T>>,
    round: Round,
    now: u64,
)
    requires
        first.state.wf(),
        request_fits(first),
        answered(first, head),
        run(first, head).state.phase == Phase::<Seq<usize>>::Receive(round),
    ensures
        ({
            let command = if run(first, head).state.backpressure {
                AcceptorCommand::Pause
            } else {
                AcceptorCommand::Resume
            };
            let longer = head + seq![Event::Command { command, now }] + tail;
            &&& run(first, longer).state == run(first, head + tail).state
            &&& run(first, longer).request == run(first, head + tail).request
            &&& effects_of(first, longer) == effects_of(first, head + tail)
            &&& calls_of(first, longer) == calls_of(first, head + tail)
        }),
{
    let s = run(first, head).state;
    let command = if s.backpressure {
        AcceptorCommand::Pause
    } else {
        AcceptorCommand::Resume
    };
    let idle = Event::Command { command, now };
    law_runs_stay_valid(first, head);
    law_repeated_commands_do_nothing(s, round, now);
    lemma_leave_out(first, head, idle, tail);
    let longer = head + seq![idle];
    assert(longer.drop_last() =~= head);
    lemma_cut(first, longer, tail);
    lemma_cut(first, head, tail);
    if tail.len() > 0 {
        lemma_same_state_same_run(run(first, head), run(first, longer), tail);
    } else {
        assert(longer + tail =~= longer);
        assert(head + tail =~= head);
    }
}

/// Resuming a loop that was paused ends back-pressure at once, and every socket is registered
/// again, in order.
pub proof fn law_pause_then_resume<T>(s: AcceptState<T>, round: Round, paused: u64, resumed: u64)
    requires
        s.wf(),
        s.phase == Phase::<Seq<usize>>::Receive(round),
        !s.backpressure,
    ensures
        ({
            let pause = s.next(Event::Command { command: AcceptorCommand::Pause, now: paused });
            let resume = pause.state.next(
                Event::Command { command: AcceptorCommand::Resume, now: resumed },
            );
            &&& pause.state.backpressure
            &&& pause.request is Receive
            &&& !resume.state.backpressure
            &&& resume.effects == s.update_status(ServerStatus::Ready)
            &&& resume.state.phase == if s.sockets.len() == 0 {
                Phase::Receive(round)
            } else {
                Phase::Register {
                    keys: crate::model::all_keys(s.sockets.len()),
                    next: Next::Commands(round),
                }
            }
        }),
{
    let sockets = s.pressed().sockets;
    let keys = crate::model::all_keys(s.sockets.len());
    lemma_filter_all(keys, crate::model::awake(sockets));
    lemma_last_rest(sockets);
}

/// When back-pressure ends, a socket is registered exactly when it does not rest. A resting socket
/// is left to a timer: see [`law_timer_after_back_pressure`].
pub proof fn law_resuming_skips_resting_sockets<T>(
    s: AcceptState<T>,
    effects: Seq<Effect>,
    round: Round,
    key: usize,
)
    requires
        s.wf(),
        s.backpressure,
        s.backlog.len() == 0,
        key < s.sockets.len(),
    ensures
        s.sockets[key as int].timeout is None <==> (s.drain(effects, round).state.phase
            matches Phase::Register { keys, .. } && keys.contains(key)),
{
    let picked = crate::model::all_keys(s.sockets.len()).filter(crate::model::awake(s.sockets));
    lemma_picked(s.sockets.len(), crate::model::awake(s.sockets), key);
    assert(picked.len() == 0 ==> !picked.contains(key));
}

// ---------------------------------------------------------------------------
// Errors
// ---------------------------------------------------------------------------
/// After an error that belongs to one connection the next connection is accepted at once: the error
/// is counted, which may be worth a warning, and nothing else changes. If the error says that there
/// is no connection, the socket is registered again, and nothing else is done. All other errors
/// incur a timeout: the socket rests, and a timer is asked for.
pub proof fn law_accept_errors<T>(
    s: AcceptState<T>,
    keys: Seq<usize>,
    errors: usize,
    kind: ErrorKind,
    now: u64,
)
    requires
        s.wf(),
        s.phase == (Phase::Accept { keys, errors }),
    ensures
        ({
            let step = s.next(Event::AcceptFailed { kind, now });
            let key = keys[0];
            let count = errors.wrapping_add(1);
            if kind.per_connection() {
                &&& step.state == (AcceptState {
                    phase: Phase::Accept { keys, errors: count },
                    ..s
                })
                &&& step.effects == if crate::model::worth_warning(count) {
                    seq![Effect::Warn { key, count }]
                } else {
                    seq![]
                }
                &&& step.request == (Request::<T>::Accept { key })
            } else if kind is WouldBlock {
                &&& step.state == (AcceptState {
                    phase: Phase::Register {
                        keys: seq![key],
                        next: Next::Events(keys.drop_first()),
                    },
                    ..s
                })
                &&& step.effects.len() == 0
                &&& step.request == (Request::<T>::Register {
                    key,
                    update: s.sockets[key as int].registered,
                })
            } else {
                &&& step.state == (AcceptState {
                    phase: step.state.phase,
                    ..s.resting(key, now)
                })
                &&& step.state.sockets[key as int].timeout == Some((now + ERR_TIMEOUT) as u128)
                &&& step.effects == seq![Effect::ScheduleTimer]
                &&& step.request == if keys.len() == 1 {
                    Request::<T>::Receive
                } else {
                    Request::<T>::Accept { key: keys[1] }
                }
            }
        }),
{
}

/// Failed attempts to accept, each of the given kind and at the given time.
pub open spec fn failures<T>(errors: Seq<(ErrorKind, u64)>) -> Seq<Event<T>> {
    errors.map_values(
        |error: (ErrorKind, u64)| Event::AcceptFailed { kind: error.0, now: error.1 },
    )
}

/// The number of errors in a row after `n` more.
pub open spec fn counted(errors: usize, n: nat) -> usize
    decreases n,
{
    if n == 0 {
        errors
    } else {
        counted(errors, (n - 1) as nat).wrapping_add(1)
    }
}

/// The warnings that `n` more errors in a row lead to.
pub open spec fn warnings(key: usize, errors: usize, n: nat) -> Seq<Effect>
    decreases n,
{
    if n == 0 {
        seq![]
    } else {
        let earlier = warnings(key, errors, (n - 1) as nat);
        let count = counted(errors, n);
        if crate::model::worth_warning(count) {
            earlier.push(Effect::Warn { key, count })
        } else {
            earlier
        }
    }
}

/// The state, whatever the number of errors in a row.
pub open spec fn forget_errors<T>(s: AcceptState<T>) -> AcceptState<T> {
    AcceptState {
        phase: match s.phase {
            Phase::Accept { keys, .. } => Phase::Accept { keys, errors: 0 },
            Phase::Deliver { keys, .. } => Phase::Deliver { keys, errors: 0 },
            phase => phase,
        },
        ..s
    }
}

/// The effects but for the warnings.
pub open spec fn without_warnings(effects: Seq<Effect>) -> Seq<Effect> {
    effects.filter(|effect: Effect| !(effect is Warn))
}

/// How a run goes on depends on the number of errors in a row only in its warnings.
proof fn lemma_same_run_but_warnings<T>(a: Step<T>, b: Step<T>, events: Seq<Event<T>>)
    requires
        forget_errors(a.state) == forget_errors(b.state),
        a.request == b.request,
    ensures
        forget_errors(run(a, events).state) == forget_errors(run(b, events).state),
        run(a, events).request == run(b, events).request,
        without_warnings(effects_of(a, events)) == without_warnings(effects_of(b, events)),
        calls_of(a, events) == calls_of(b, events),
    decreases events.len(),
{
    if events.len() > 0 {
        let fewer = events.drop_last();
        lemma_same_run_but_warnings(a, b, fewer);
        let one = run(a, fewer).state.next(events.last());
        let other = run(b, fewer).state.next(events.last());
        let test = |effect: Effect| !(effect is Warn);
        Seq::filter_distributes_over_add(effects_of(a, fewer), one.effects, test);
        Seq::filter_distributes_over_add(effects_of(b, fewer), other.effects, test);
        assert(without_warnings(one.effects) == without_warnings(other.effects)) by {
            reveal_with_fuel(Seq::filter, 2);
            if one.effects != other.effects {
                assert(without_warnings(one.effects) =~= seq![]);
                assert(without_warnings(other.effects) =~= seq![]);
            }
        }
    }
}

/// Warnings are left out as such.
proof fn lemma_only_warnings(key: usize, errors: usize, n: nat)
    ensures
        without_warnings(warnings(key, errors, n)) == Seq::<Effect>::empty(),
    decreases n,
{
    let test = |effect: Effect| !(effect is Warn);
    reveal(Seq::filter);
    if n > 0 {
        let earlier = warnings(key, errors, (n - 1) as nat);
        lemma_only_warnings(key, errors, (n - 1) as nat);
        earlier.lemma_filter_push(Effect::Warn { key, count: counted(errors, n) }, test);
    }
}

/// However many errors of single connections come in a row, the next connection is accepted each
/// time, with nothing done but to warn. Then everything is as if they had not come, but for the
/// number of errors and the warnings that depend on it.
pub proof fn law_connection_errors_change_no_run<T>(
    first: Step<T>,
    keys: Seq<usize>,
    count: usize,
    errors: Seq<(ErrorKind, u64)>,
    tail: Seq<Event<T>>,
)
    requires
        first.state.wf(),
        first.state.phase == (Phase::Accept { keys, errors: count }),
        request_fits(first),
        forall|i: int| 0 <= i < errors.len() ==> (#[trigger] errors[i]).0.per_connection(),
    ensures
        run(first, failures(errors)).state == (AcceptState {
            phase: Phase::Accept { keys, errors: counted(count, errors.len()) },
            ..first.state
        }),
        run(first, failures(errors)).request == first.request,
        effects_of(first, failures(errors)) == warnings(keys[0], count, errors.len()),
        calls_of(first, failures(errors)) == Seq::new(errors.len(), |i: int| first.request),
        forget_errors(run(first, failures(errors) + tail).state) == forget_errors(
            run(first, tail).state,
        ),
        run(first, failures(errors) + tail).request == run(first, tail).request,
        without_warnings(effects_of(first, failures(errors) + tail)) == without_warnings(
            effects_of(first, tail),
        ),
        calls_of(first, failures(errors) + tail) == calls_of(first, failures(errors)) + calls_of(
            first,
            tail,
        ),
    decreases errors.len(),
{
    let events = failures::<T>(errors);
    let n = errors.len();
    if n > 0 {
        let fewer = errors.drop_last();
        assert forall|i: int| 0 <= i < fewer.len() implies (
        #[trigger] fewer[i]).0.per_connection() by {
            assert(fewer[i] == errors[i]);
        }
        law_connection_errors_change_no_run(first, keys, count, fewer, tail);
        assert(events.drop_last() =~= failures::<T>(fewer));
        assert(errors[n - 1].0.per_connection());
        law_accept_errors(
            run(first, failures(fewer)).state,
            keys,
            counted(count, fewer.len()),
            errors.last().0,
            errors.last().1,
        );
        assert(effects_of(first, events) =~= warnings(keys[0], count, n));
    }
    assert(calls_of(first, events) =~= Seq::new(n, |i: int| first.request));
    lemma_cut(first, events, tail);
    lemma_same_run_but_warnings(run(first, events), first, tail);
    lemma_only_warnings(keys[0], count, n);
    Seq::filter_distributes_over_add(
        effects_of(first, events),
        effects_of(run(first, events), tail),
        |effect: Effect| !(effect is Warn),
    );
    assert(Seq::<Effect>::empty() + without_warnings(effects_of(first, tail))
        =~= without_warnings(effects_of(first, tail)));
}

/// A socket that could not be registered rests, unless the poller would only have had to block:
/// then the same registration is tried again.
pub proof fn law_registration_errors<T>(
    s: AcceptState<T>,
    keys: Seq<usize>,
    next: Next<Seq<usize>>,
    kind: ErrorKind,
    now: u64,
)
    requires
        s.wf(),
        s.phase == (Phase::Register { keys, next }),
    ensures
        ({
            let step = s.next(Event::RegisterFailed { kind, now });
            let key = keys[0];
            if kind is WouldBlock {
                &&& step.state == s
                &&& step.effects.len() == 0
                &&& step.request == (Request::<T>::Register {
                    key,
                    update: s.sockets[key as int].registered,
                })
            } else {
                &&& step.state.sockets[key as int].timeout == Some((now + ERR_TIMEOUT) as u128)
                &&& step.state.sockets[key as int].registered == s.sockets[key as int].registered
                &&& step.effects.len() > 0
                &&& step.effects[0] is ScheduleTimer
            }
        }),
{
}

/// Registrations that would block, one for each time in `times`.
pub open spec fn blocked<T>(times: Seq<u64>) -> Seq<Event<T>> {
    times.map_values(|now: u64| Event::RegisterFailed { kind: ErrorKind::WouldBlock, now })
}

/// However often a registration would block, it is tried again at once, with nothing else done and
/// no timeout set; then everything is as if it had not been blocked.
pub proof fn law_blocked_registrations_change_no_run<T>(
    first: Step<T>,
    times: Seq<u64>,
    tail: Seq<Event<T>>,
)
    requires
        first.state.wf(),
        first.state.phase is Register,
        request_fits(first),
    ensures
        run(first, blocked(times)).state == first.state,
        run(first, blocked(times)).request == first.request,
        effects_of(first, blocked(times)).len() == 0,
        calls_of(first, blocked(times)) == Seq::new(times.len(), |i: int| first.request),
        run(first, blocked(times) + tail).state == run(first, tail).state,
        run(first, blocked(times) + tail).request == run(first, tail).request,
        effects_of(first, blocked(times) + tail) == effects_of(first, tail),
        calls_of(first, blocked(times) + tail) == calls_of(first, blocked(times)) + calls_of(
            first,
            tail,
        ),
    decreases times.len(),
{
    let events = blocked::<T>(times);
    if times.len() > 0 {
        let fewer = times.drop_last();
        law_blocked_registrations_change_no_run(first, fewer, tail);
        assert(events.drop_last() =~= blocked::<T>(fewer));
        if let Phase::Register { keys, next } = first.state.phase {
            law_registration_errors(
                first.state,
                keys,
                next,
                ErrorKind::WouldBlock,
                times.last(),
            );
        }
        assert(effects_of(first, events) =~= seq![]);
    }
    assert(calls_of(first, events) =~= Seq::new(times.len(), |i: int| first.request));
    lemma_cut(first, events, tail);
    lemma_same_state_same_run(run(first, events), first, tail);
    assert(Seq::<Effect>::empty() + effects_of(first, tail) =~= effects_of(first, tail));
    assert(effects_of(first, events) =~= Seq::<Effect>::empty());
}

/// The events answer registrations and settle them: each succeeds or fails for good.
pub open spec fn settled<T>(events: Seq<Event<T>>) -> bool {
    forall|i: int|
        0 <= i < events.len() ==> match #[trigger] events[i] {
            Event::Registered => true,
            Event::RegisterFailed { kind, .. } => !(kind is WouldBlock),
            _ => false,
        }
}

/// Every socket of a list is asked for in its turn: as many registrations as come before it were
/// settled, and then the poller is asked for it.
pub proof fn law_every_socket_is_asked_for<T>(
    first: Step<T>,
    keys: Seq<usize>,
    next: Next<Seq<usize>>,
    events: Seq<Event<T>>,
)
    requires
        first.state.wf(),
        first.state.phase == (Phase::Register { keys, next }),
        request_fits(first),
        settled(events),
        events.len() < keys.len(),
    ensures
        run(first, events).state.wf(),
        run(first, events).state.phase == (Phase::Register {
            keys: keys.skip(events.len() as int),
            next,
        }),
        request_fits(run(first, events)),
        run(first, events).request matches Request::Register { key, .. } && key
            == keys[events.len() as int],
    decreases events.len(),
{
    if events.len() == 0 {
        assert(keys.skip(0) =~= keys);
    } else {
        let fewer = events.drop_last();
        assert(settled(fewer)) by {
            assert forall|i: int| 0 <= i < fewer.len() implies match #[trigger] fewer[i] {
                Event::Registered => true,
                Event::RegisterFailed { kind, .. } => !(kind is WouldBlock),
                _ => false,
            } by {
                assert(fewer[i] == events[i]);
            }
        }
        law_every_socket_is_asked_for(first, keys, next, fewer);
        let before = run(first, fewer);
        assert(events.last() == events[events.len() - 1]);
        assert(keys.skip(fewer.len() as int).drop_first() =~= keys.skip(events.len() as int));
        law_state_stays_valid(before.state, events.last());
        law_request_fits(before.state, events.last());
    }
}

/// A timer wakes exactly the sockets whose timeout has passed, and none under back-pressure.
pub proof fn law_timer_wakes_expired_sockets<T>(s: AcceptState<T>, now: u64, key: usize)
    requires
        s.wf(),
    ensures
        s.due(now).contains(key) <==> {
            &&& !s.backpressure
            &&& key < s.sockets.len()
            &&& s.sockets[key as int].timeout matches Some(until) && now > until
        },
{
    lemma_picked(s.sockets.len(), crate::model::expired(s.sockets, now), key);
}

/// The timer that is asked for at or after an error comes late enough: it finds that the rest of
/// the socket is over.
pub proof fn law_scheduled_timer_wakes_socket<T>(
    s: AcceptState<T>,
    key: usize,
    error: u64,
    asked: u64,
    now: u64,
)
    requires
        s.wf(),
        !s.backpressure,
        key < s.sockets.len(),
        s.sockets[key as int].timeout == Some((error + ERR_TIMEOUT) as u128),
        error <= asked,
        now >= asked + ERR_SLEEP_TIMEOUT * 1_000_000,
    ensures
        s.due(now).contains(key),
        s.timers_done(now).sockets[key as int].timeout is None,
{
    law_timer_wakes_expired_sockets(s, now, key);
}

/// When the timer of an error is handled and its socket still rests from it, outside back-pressure,
/// the timeout is gone and the poller is asked for the socket, in its turn among those that are
/// due.
pub proof fn law_timer_asks_for_socket<T>(
    s: AcceptState<T>,
    round: Round,
    key: usize,
    error: u64,
    asked: u64,
    now: u64,
) -> (turn: nat)
    requires
        s.wf(),
        s.phase == Phase::<Seq<usize>>::Receive(round),
        !s.backpressure,
        key < s.sockets.len(),
        s.sockets[key as int].timeout == Some((error + ERR_TIMEOUT) as u128),
        error <= asked,
        now >= asked + ERR_SLEEP_TIMEOUT * 1_000_000,
    ensures
        s.next(
            Event::Command { command: AcceptorCommand::Timer, now },
        ).state.sockets[key as int].timeout is None,
        turn < s.sockets.len(),
        forall|events: Seq<Event<T>>|
            #![trigger settled(events)]
            settled(events) && events.len() == turn ==> (run(
                s.next(Event::Command { command: AcceptorCommand::Timer, now }),
                events,
            ).request matches Request::Register { key: other, .. } && other == key),
{
    let event = Event::Command { command: AcceptorCommand::Timer, now };
    let step = s.next(event);
    let keys = s.due(now);
    law_scheduled_timer_wakes_socket(s, key, error, asked, now);
    crate::model::all_keys(s.sockets.len()).lemma_filter_len(
        crate::model::expired(s.sockets, now),
    );
    law_state_stays_valid(s, event);
    law_request_fits(s, event);
    let turn = choose|i: int| 0 <= i < keys.len() && keys[i] == key;
    assert forall|events: Seq<Event<T>>|
        #![trigger settled(events)]
        settled(events) && events.len() == turn implies (run(
        step,
        events,
    ).request matches Request::Register { key: other, .. } && other == key) by {
        law_every_socket_is_asked_for(step, keys, Next::Commands(round), events);
    }
    turn as nat
}

/// When back-pressure ends, a timer is asked for exactly when some socket rests after whose rest no
/// timer is to come: its own has come under back-pressure. A socket whose timer is still to come is
/// left to that.
pub proof fn law_timer_after_back_pressure<T>(
    s: AcceptState<T>,
    effects: Seq<Effect>,
    round: Round,
)
    requires
        s.wf(),
        s.backpressure,
        s.backlog.len() == 0,
    ensures
        !s.drain(effects, round).state.backpressure,
        s.drain(effects, round).state.sockets == s.sockets,
        s.drain(effects, round).effects == if exists|i: int|
            #![trigger s.sockets[i]]
            0 <= i < s.sockets.len() && (s.sockets[i].timeout matches Some(until)
                && !crate::model::awaited(s.timers, until)) {
            effects.push(Effect::ScheduleTimer)
        } else {
            effects
        },
{
    lemma_last_rest(s.sockets);
    if let Some(last) = crate::model::last_rest(s.sockets) {
        if crate::model::awaited(s.timers, last) {
            let j = choose|j: int| 0 <= j < s.timers.len() && #[trigger] s.timers[j] >= last;
            assert forall|i: int|
                #![trigger s.sockets[i]]
                0 <= i < s.sockets.len() implies (s.sockets[i].timeout matches Some(until)
                ==> crate::model::awaited(s.timers, until)) by {
                if let Some(until) = s.sockets[i].timeout {
                    assert(s.timers[j] >= until);
                }
            }
        }
    }
}

/// No resting socket is forgotten: outside back-pressure one of the timers that are to come finds
/// its rest over, so that the socket is registered again.
pub proof fn law_resting_sockets_await_a_timer<T>(s: AcceptState<T>, key: usize, until: u128) -> (
    timer: int)
    requires
        s.wf(),
        !s.backpressure,
        key < s.sockets.len(),
        s.sockets[key as int].timeout == Some(until),
    ensures
        0 <= timer < s.timers.len(),
        forall|now: u64|
            now > s.timers[timer] ==> #[trigger] s.due(now).contains(key) && s.timers_done(
                now,
            ).sockets[key as int].timeout is None,
{
    assert(s.sockets[key as int].timeout is Some);
    let timer = choose|i: int| 0 <= i < s.timers.len() && #[trigger] s.timers[i] >= until;
    assert forall|now: u64| now > s.timers[timer] implies #[trigger] s.due(now).contains(key)
        && s.timers_done(now).sockets[key as int].timeout is None by {
        law_timer_wakes_expired_sockets(s, now, key);
    }
    timer
}

/// The timers that are still to come after an event, without those that it leads to.
pub open spec fn timers_after<T>(s: AcceptState<T>, event: Event<T>) -> Seq<u128> {
    match event {
        Event::Command { command: AcceptorCommand::Timer, now } => s.timers_left(now),
        _ => s.timers,
    }
}

/// The timers that are to come are those that were asked for: a step adds one exactly when it asks
/// for one, and it asks for one at most. Only a timer that comes takes one away.
pub proof fn law_timers_are_asked_for<T>(s: AcceptState<T>, event: Event<T>)
    requires
        s.wf(),
        s.expects(event),
    ensures
        ({
            let step = s.next(event);
            let left = timers_after(s, event);
            &&& step.effects.contains(Effect::ScheduleTimer) ==> step.state.timers.len()
                == left.len() + 1 && step.state.timers.drop_last() == left
            &&& !step.effects.contains(Effect::ScheduleTimer) ==> step.state.timers == left
            &&& forall|i: int, j: int|
                0 <= i < step.effects.len() && 0 <= j < step.effects.len()
                    && #[trigger] step.effects[i] is ScheduleTimer
                    && #[trigger] step.effects[j] is ScheduleTimer ==> i == j
        }),
{
    let step = s.next(event);
    let left = timers_after(s, event);
    crate::effect_laws::law_timer_requests(s, event);
    crate::effect_laws::law_effects_in_order(s, event);
    crate::effect_laws::law_pressure(s, event);
    crate::step_laws::law_timers_to_come(s, event);
    if s.timers.len() > 0 {
        assert(s.timers.drop_first() =~= left || s.timers =~= left);
    }
    if step.state.timers.len() == left.len() + 1 {
        assert(step.state.timers.drop_last() =~= left);
    }
    assert forall|i: int, j: int|
        0 <= i < step.effects.len() && 0 <= j < step.effects.len()
            && #[trigger] step.effects[i] is ScheduleTimer
            && #[trigger] step.effects[j] is ScheduleTimer implies i == j by {
        if i != j {
            assert(crate::effect_laws::precedes(step.effects[i], step.effects[j])
                || crate::effect_laws::precedes(step.effects[j], step.effects[i]));
        }
    }
}

/// How many timers a run asked for, after its first step.
pub open spec fn timers_asked<T>(first: Step<T>, events: Seq<Event<T>>) -> nat
    decreases events.len(),
{
    if events.len() == 0 {
        0
    } else {
        timers_asked(first, events.drop_last()) + if run(first, events).effects.contains(
            Effect::ScheduleTimer,
        ) {
            1nat
        } else {
            0nat
        }
    }
}

/// The event is a timer.
pub open spec fn is_timer<T>(event: Event<T>) -> bool {
    event matches Event::Command { command, .. } && command is Timer
}

/// How many timers came in a run.
pub open spec fn timers_came<T>(events: Seq<Event<T>>) -> nat
    decreases events.len(),
{
    if events.len() == 0 {
        0
    } else {
        timers_came(events.drop_last()) + if is_timer(events.last()) {
            1nat
        } else {
            0nat
        }
    }
}

/// Each timer that comes in a run was asked for: it comes after the time of the oldest one that is
/// still to come.
pub open spec fn timers_expected<T>(first: Step<T>, events: Seq<Event<T>>) -> bool
    decreases events.len(),
{
    events.len() > 0 ==> {
        let before = run(first, events.drop_last()).state;
        &&& timers_expected(first, events.drop_last())
        &&& is_timer(events.last()) ==> before.timers.len() > 0 && events.last()->Command_now
            > before.timers[0]
    }
}

/// At any time, as many timers are to come as were asked for and have not come. A `Timer` command
/// that nobody asked for counts for none.
pub proof fn law_timers_are_counted<T>(first: Step<T>, events: Seq<Event<T>>)
    requires
        first.state.wf(),
        request_fits(first),
        answered(first, events),
    ensures
        run(first, events).state.timers.len() <= first.state.timers.len() + timers_asked(
            first,
            events,
        ),
        run(first, events).state.timers.len() + timers_came(events) >= first.state.timers.len()
            + timers_asked(first, events),
        timers_expected(first, events) ==> run(first, events).state.timers.len() + timers_came(
            events,
        ) == first.state.timers.len() + timers_asked(first, events),
    decreases events.len(),
{
    if events.len() > 0 {
        let before = run(first, events.drop_last());
        law_timers_are_counted(first, events.drop_last());
        law_runs_stay_valid(first, events.drop_last());
        law_answers_are_expected(before, events.last());
        law_timers_are_asked_for(before.state, events.last());
    }
}

/// The time of an event, if it has one.
pub open spec fn time_of<T>(event: Event<T>) -> Option<u64> {
    match event {
        Event::RegisterFailed { now, .. }
        | Event::Command { now, .. }
        | Event::AcceptFailed { now, .. } => Some(now),
        _ => None,
    }
}

/// No event comes after the time `last`.
pub open spec fn ends_by<T>(events: Seq<Event<T>>, last: u64) -> bool {
    forall|i: int|
        0 <= i < events.len() ==> (time_of(#[trigger] events[i]) matches Some(now) ==> now <= last)
}

/// The clock does not go back.
pub open spec fn in_time<T>(events: Seq<Event<T>>) -> bool
    decreases events.len(),
{
    events.len() > 0 ==> {
        &&& in_time(events.drop_last())
        &&& time_of(events.last()) matches Some(now) ==> ends_by(events.drop_last(), now)
    }
}

/// Every socket rests until `last` at most.
pub open spec fn rests_by(sockets: Seq<ServerSocketInfo>, last: int) -> bool {
    forall|i: int|
        #![trigger sockets[i]]
        0 <= i < sockets.len() ==> (sockets[i].timeout matches Some(until) ==> until <= last)
}

/// A socket that rests after a step rested before, or its timer is the one that was asked for last.
proof fn lemma_step_rests<T>(s: AcceptState<T>, event: Event<T>, i: int, until: u128)
    requires
        s.wf(),
        s.expects(event),
        0 <= i < s.next(event).state.sockets.len(),
        s.next(event).state.sockets[i].timeout == Some(until),
    ensures
        s.sockets.len() == s.next(event).state.sockets.len(),
        s.sockets[i].timeout == Some(until) || {
            &&& time_of(event) matches Some(now) && until == now + ERR_TIMEOUT
            &&& s.next(event).state.timers == s.timers.push(until)
        },
{
}

/// The timer that was asked for last is the one of the last error, or comes after every rest, or was
/// the last one before.
proof fn lemma_step_timers<T>(s: AcceptState<T>, event: Event<T>)
    requires
        s.wf(),
        s.expects(event),
        s.next(event).state.timers.len() > 0,
    ensures
        ({
            let last = s.next(event).state.timers.last();
            ||| time_of(event) matches Some(now) && last == now + ERR_TIMEOUT
            ||| crate::model::last_rest(s.sockets) == Some(last)
            ||| s.timers.len() > 0 && last == s.timers.last()
        }),
{
}

/// One step, not before any error so far, keeps the timer that was asked for last after every rest.
proof fn lemma_last_timer_step<T>(s: AcceptState<T>, event: Event<T>, now: u64)
    requires
        s.wf(),
        s.expects(event),
        time_of(event) matches Some(time) ==> time == now,
        rests_by(s.sockets, now + ERR_TIMEOUT),
        s.timers.len() > 0 ==> rests_by(s.sockets, s.timers.last() as int),
    ensures
        rests_by(s.next(event).state.sockets, now + ERR_TIMEOUT),
        s.next(event).state.timers.len() > 0 ==> rests_by(
            s.next(event).state.sockets,
            s.next(event).state.timers.last() as int,
        ),
{
    let after = s.next(event).state;
    let sockets = after.sockets;
    let timers = after.timers;
    lemma_last_rest(s.sockets);
    if timers.len() > 0 {
        lemma_step_timers(s, event);
    }
    assert forall|i: int|
        #![trigger sockets[i]]
        0 <= i < sockets.len() implies (sockets[i].timeout matches Some(until) ==> until <= now
        + ERR_TIMEOUT && (timers.len() > 0 ==> until <= timers.last())) by {
        if let Some(until) = sockets[i].timeout {
            lemma_step_rests(s, event, i, until);
        }
    }
}

/// As long as the clock does not go back, the timer that was asked for last comes after every rest.
proof fn lemma_last_timer<T>(first: Step<T>, events: Seq<Event<T>>, last: u64)
    requires
        first.state.wf(),
        request_fits(first),
        answered(first, events),
        crate::model::last_rest(first.state.sockets) is None,
        in_time(events),
        ends_by(events, last),
    ensures
        rests_by(run(first, events).state.sockets, last + ERR_TIMEOUT),
        run(first, events).state.timers.len() > 0 ==> rests_by(
            run(first, events).state.sockets,
            run(first, events).state.timers.last() as int,
        ),
    decreases events.len(),
{
    if events.len() == 0 {
        lemma_last_rest(first.state.sockets);
    } else {
        let fewer = events.drop_last();
        let s = run(first, fewer).state;
        let event = events.last();
        assert(ends_by(fewer, last)) by {
            assert forall|i: int| 0 <= i < fewer.len() implies (time_of(
                #[trigger] fewer[i],
            ) matches Some(now) ==> now <= last) by {
                assert(fewer[i] == events[i]);
            }
        }
        assert(event == events[events.len() - 1]);
        let now = match time_of(event) {
            Some(now) => now,
            None => last,
        };
        lemma_last_timer(first, fewer, now);
        law_runs_stay_valid(first, fewer);
        law_answers_are_expected(run(first, fewer), event);
        lemma_last_timer_step(s, event, now);
    }
}

/// The second timer is asked for only where it is needed: when back-pressure ends, one is asked for
/// exactly if some socket rests and all timers that were asked for have come. This holds of a loop
/// to which nobody else sends timers, and whose clock does not go back.
pub proof fn law_timer_is_asked_for_if_none_is_to_come<T>(
    first: Step<T>,
    events: Seq<Event<T>>,
    last: u64,
    effects: Seq<Effect>,
    round: Round,
)
    requires
        first.state.wf(),
        request_fits(first),
        crate::model::last_rest(first.state.sockets) is None,
        first.state.timers.len() == 0,
        answered(first, events),
        timers_expected(first, events),
        in_time(events),
        ends_by(events, last),
        run(first, events).state.backpressure,
        run(first, events).state.backlog.len() == 0,
    ensures
        ({
            let s = run(first, events).state;
            s.drain(effects, round).effects == if {
                &&& exists|i: int|
                    0 <= i < s.sockets.len() && (#[trigger] s.sockets[i]).timeout is Some
                &&& timers_asked(first, events) == timers_came(events)
            } {
                effects.push(Effect::ScheduleTimer)
            } else {
                effects
            }
        }),
{
    let s = run(first, events).state;
    law_timers_are_counted(first, events);
    lemma_last_timer(first, events, last);
    lemma_last_rest(s.sockets);
    if s.timers.len() > 0 {
        if let Some(until) = crate::model::last_rest(s.sockets) {
            assert(s.timers[s.timers.len() - 1] >= until);
        }
    }
}

/// The loop is about to register the socket or to accept on it.
pub open spec fn concerns<T>(s: AcceptState<T>, key: usize) -> bool {
    match s.phase {
        Phase::Register { keys, next } => keys.contains(key) || (next matches Next::Events(rest)
            && rest.contains(key)),
        Phase::Accept { keys, .. } | Phase::Deliver { keys, .. } => keys.contains(key),
        _ => false,
    }
}

/// The event does not end the rest of a socket until time `until`: it is neither an event of that
/// socket nor a timer after that time.
pub open spec fn leaves_resting<T>(event: Event<T>, key: usize, until: u128) -> bool {
    match event {
        Event::Woken { keys } => !keys@.contains(key),
        Event::Command { command, now } => !(command is Timer) || now <= until,
        _ => true,
    }
}

/// A part of a list of keys holds no further keys.
proof fn lemma_part<A>(keys: Seq<A>, key: A)
    requires
        keys.len() > 0,
        !keys.contains(key),
    ensures
        !keys.drop_first().contains(key),
        keys[0] != key,
{
    assert(keys.contains(keys[0]));
    assert forall|i: int| 0 <= i < keys.drop_first().len() implies keys.drop_first()[i]
        != key by {
        assert(keys.contains(keys[i + 1]));
    }
}

/// A resting socket is left alone: without an event of its own or a timer after its timeout, no
/// step registers it or accepts on it, and it rests on unless back-pressure begins or the loop
/// ends.
pub proof fn law_resting_socket_is_left_alone<T>(
    s: AcceptState<T>,
    event: Event<T>,
    key: usize,
    until: u128,
)
    requires
        s.wf(),
        s.expects(event),
        key < s.sockets.len(),
        s.sockets[key as int].timeout == Some(until),
        !concerns(s, key),
        leaves_resting(event, key, until),
    ensures
        !concerns(s.next(event).state, key),
        s.next(event).request matches Request::Register { key: other, .. } ==> other != key,
        s.next(event).request matches Request::Accept { key: other } ==> other != key,
        s.next(event).state.phase is Stopped || (!s.backpressure && s.next(
            event,
        ).state.backpressure) || {
            &&& s.next(event).state.sockets.len() == s.sockets.len()
            &&& s.next(event).state.sockets[key as int].timeout == Some(until)
        },
{
    let n = s.sockets.len();
    match s.phase {
        Phase::Register { keys, next } => {
            lemma_part(keys, key);
            if let Next::Events(rest) = next {
                if rest.len() > 0 {
                    lemma_part(rest, key);
                }
            }
        },
        Phase::Accept { keys, .. } | Phase::Deliver { keys, .. } => {
            lemma_part(keys, key);
        },
        Phase::Receive(_) => {
            lemma_picked(n, crate::model::awake(s.sockets), key);
            if let Event::Command { now, .. } = event {
                lemma_picked(n, crate::model::expired(s.sockets, now), key);
            }
        },
        Phase::Drain(_) => {
            lemma_picked(n, crate::model::awake(s.sockets), key);
        },
        Phase::Wait => {
            if let Event::Woken { keys } = event {
                if keys@.filter(crate::model::known(s.sockets)).contains(key) {
                    keys@.lemma_filter_contains_rev(crate::model::known(s.sockets), key);
                }
            }
        },
        _ => {},
    }
    law_request_fits(s, event);
    match s.next(event).state.phase {
        Phase::Register { keys, .. } | Phase::Accept { keys, .. } => {
            law_state_stays_valid(s, event);
            assert(keys.contains(keys[0]));
        },
        _ => {},
    }
}

/// The events of a run leave a socket resting, and back-pressure does not begin.
pub open spec fn resting_run<T>(
    first: Step<T>,
    events: Seq<Event<T>>,
    key: usize,
    until: u128,
) -> bool
    decreases events.len(),
{
    events.len() > 0 ==> {
        &&& resting_run(first, events.drop_last(), key, until)
        &&& leaves_resting(events.last(), key, until)
        &&& !run(first, events.drop_last()).state.backpressure ==> !run(
            first,
            events,
        ).state.backpressure
        &&& !(run(first, events).state.phase is Stopped)
    }
}

/// After an error there is a timeout before the next `accept()`: as long as the poller reports no
/// event of a resting socket and no timer comes after its timeout, the loop neither registers it
/// nor accepts on it.
pub proof fn law_timeout_before_next_accept<T>(
    first: Step<T>,
    events: Seq<Event<T>>,
    key: usize,
    until: u128,
)
    requires
        first.state.wf(),
        request_fits(first),
        answered(first, events),
        key < first.state.sockets.len(),
        first.state.sockets[key as int].timeout == Some(until),
        !concerns(first.state, key),
        resting_run(first, events, key, until),
    ensures
        ({
            let step = run(first, events);
            &&& step.state.sockets.len() == first.state.sockets.len()
            &&& step.state.sockets[key as int].timeout == Some(until)
            &&& !concerns(step.state, key)
            &&& step.request matches Request::Register { key: other, .. } ==> other != key
            &&& step.request matches Request::Accept { key: other } ==> other != key
        }),
    decreases events.len(),
{
    if events.len() > 0 {
        let before = run(first, events.drop_last());
        law_timeout_before_next_accept(first, events.drop_last(), key, until);
        law_runs_stay_valid(first, events.drop_last());
        law_answers_are_expected(before, events.last());
        law_resting_socket_is_left_alone(before.state, events.last(), key, until);
    } else {
        match first.state.phase {
            Phase::Register { keys, .. } | Phase::Accept { keys, .. } => {
                assert(keys.contains(keys[0]));
            },
            _ => {},
        }
    }
}

/// The poller will report the socket: it was registered, and since then neither did an event of it
/// come nor did back-pressure begin, and the poller was not told that it is of no interest.
pub open spec fn armed<T>(first: Step<T>, events: Seq<Event<T>>, key: usize) -> bool
    decreases events.len(),
{
    if events.len() == 0 {
        false
    } else {
        let before = run(first, events.drop_last()).state;
        let after = run(first, events).state;
        if !before.backpressure && after.backpressure {
            false
        } else if run(first, events).effects.contains(Effect::Disable { key }) {
            false
        } else {
            match (before.phase, events.last()) {
                (Phase::Register { keys, .. }, Event::Registered) if keys[0] == key => true,
                (Phase::Wait, Event::Woken { keys }) if keys@.contains(key) => false,
                _ => armed(first, events.drop_last(), key),
            }
        }
    }
}

/// No socket is forgotten: outside back-pressure the poller will report it, or it rests after an
/// error, or the loop is about to register it or to accept on it.
pub proof fn law_no_socket_is_forgotten<T>(first: Step<T>, events: Seq<Event<T>>, key: usize)
    requires
        first.state.wf(),
        request_fits(first),
        first.state.backpressure,
        answered(first, events),
        key < run(first, events).state.sockets.len(),
    ensures
        armed(first, events, key) ==> run(first, events).state.sockets[key as int].registered,
        !run(first, events).state.backpressure ==> {
            ||| armed(first, events, key)
            ||| run(first, events).state.sockets[key as int].timeout is Some
            ||| concerns(run(first, events).state, key)
        },
    decreases events.len(),
{
    if events.len() > 0 {
        let before = run(first, events.drop_last());
        let s = before.state;
        let event = events.last();
        let after = s.next(event).state;
        law_runs_stay_valid(first, events.drop_last());
        law_answers_are_expected(before, event);
        law_state_stays_valid(s, event);
        assert(key < s.sockets.len());
        law_no_socket_is_forgotten(first, events.drop_last(), key);
        law_sockets_stay(s, event, key as int);
        crate::effect_laws::law_disable(s, event, key);
        let n = s.sockets.len();
        match s.phase {
            Phase::Register { keys, next } => {
                lemma_first_or_rest(keys, key);
                if let Next::Events(rest) = next {
                    assert(rest.len() == 0 ==> !rest.contains(key));
                }
            },
            Phase::Accept { keys, .. } | Phase::Deliver { keys, .. } => {
                lemma_first_or_rest(keys, key);
                assert(seq![keys[0]].contains(keys[0])) by {
                    assert(seq![keys[0]][0] == keys[0]);
                }
                assert(keys.drop_first().len() == 0 ==> !keys.drop_first().contains(key));
            },
            Phase::Receive(_) | Phase::Drain(_) => {
                let picked = crate::model::all_keys(n).filter(crate::model::awake(s.sockets));
                lemma_picked(n, crate::model::awake(s.sockets), key);
                assert(picked.len() == 0 ==> !picked.contains(key));
                if let Event::Command { now, .. } = event {
                    let due = s.due(now);
                    law_timer_wakes_expired_sockets(s, now, key);
                    assert(due.len() == 0 ==> !due.contains(key));
                }
            },
            Phase::Wait => {
                if let Event::Woken { keys } = event {
                    law_events_of_known_sockets(s, keys, key);
                }
            },
            _ => {},
        }
    }
}

/// A key of a list is its first key or one of the others.
proof fn lemma_first_or_rest(keys: Seq<usize>, key: usize)
    requires
        keys.len() > 0,
    ensures
        keys.contains(key) ==> keys[0] == key || keys.drop_first().contains(key),
{
    if keys.contains(key) && keys[0] != key {
        let i = choose|i: int| 0 <= i < keys.len() && keys[i] == key;
        assert(keys.drop_first()[i - 1] == key);
    }
}

// ---------------------------------------------------------------------------
// Sockets
// ---------------------------------------------------------------------------
/// Until the loop ends its sockets stay the same: each keeps its key and its token, and a socket
/// that the poller knows stays known.
pub proof fn law_sockets_stay<T>(s: AcceptState<T>, event: Event<T>, i: int)
    requires
        s.wf(),
        s.expects(event),
        0 <= i < s.sockets.len(),
    ensures
        !(s.next(event).state.phase is Stopped) ==> {
            &&& s.next(event).state.sockets.len() == s.sockets.len()
            &&& s.next(event).state.sockets[i].token == s.sockets[i].token
            &&& s.sockets[i].registered ==> s.next(event).state.sockets[i].registered
        },
{
}

/// The loop waits for events only when it has just found no command.
pub proof fn law_waits_without_commands<T>(s: AcceptState<T>, event: Event<T>)
    requires
        s.wf(),
        s.expects(event),
    ensures
        s.next(event).request is Wait <==> {
            &&& s.phase == Phase::<Seq<usize>>::Receive(Round::Before)
            &&& event is NoCommand
        },
{
}

/// After a wait the loop goes through exactly the sockets that had an event and that the poller
/// knows.
pub proof fn law_events_of_known_sockets<T>(s: AcceptState<T>, events: Vec<usize>, key: usize)
    requires
        s.wf(),
        s.phase is Wait,
    ensures
        (s.next(Event::Woken { keys: events }).state.phase matches Phase::Accept { keys, .. }
            && keys.contains(key)) <==> {
            &&& events@.contains(key)
            &&& key < s.sockets.len()
            &&& s.sockets[key as int].registered
        },
{
    let test = crate::model::known(s.sockets);
    let keys = events@.filter(test);
    if keys.contains(key) {
        events@.lemma_filter_contains_rev(test, key);
        let i = choose|i: int| 0 <= i < keys.len() && keys[i] == key;
        events@.lemma_filter_pred(test, i);
    }
    if events@.contains(key) && test(key) {
        let i = choose|i: int| 0 <= i < events@.len() && events@[i] == key;
        events@.lemma_filter_contains(test, i);
    }
    assert(keys.len() == 0 ==> !keys.contains(key));
}

// ---------------------------------------------------------------------------
// Beginning and end
// ---------------------------------------------------------------------------
/// A loop without sockets has started when it begins, and says so.
pub proof fn law_loop_without_sockets_starts<T>(s: AcceptState<T>, tx: oneshot::Sender<()>)
    requires
        s.wf(),
        s.phase is Created,
        s.sockets.len() == 0,
        s.starter == Some(tx),
    ensures
        s.begin().state.starter is None,
        s.begin().request is Receive,
        s.begin().effects == seq![Effect::Answer { tx, delay: START_TIMEOUT }],
{
    assert(Seq::<Effect>::empty().push(Effect::Answer { tx, delay: START_TIMEOUT }) =~= seq![
        Effect::Answer { tx, delay: START_TIMEOUT },
    ]);
}

/// Whoever waits for the loop to start is answered once, when no socket is left to be tried.
pub proof fn law_start_is_answered_once<T>(s: AcceptState<T>, event: Event<T>)
    requires
        s.wf(),
        s.expects(event),
    ensures
        ({
            let step = s.next(event);
            match s.starter {
                None => step.state.starter is None,
                Some(tx) => if step.state.starting() {
                    step.state.starter == s.starter
                } else {
                    &&& step.state.starter is None
                    &&& step.request is Receive
                    &&& step.effects.len() > 0
                    &&& step.effects.last() == (Effect::Answer { tx, delay: START_TIMEOUT })
                },
            }
        }),
{
}

/// The loop was asked to register the socket, in the first step or after some of the events.
pub open spec fn was_tried<T>(first: Step<T>, events: Seq<Event<T>>, key: usize) -> bool
    decreases events.len(),
{
    ||| run(first, events).request matches Request::Register { key: other, .. } && other == key
    ||| events.len() > 0 && was_tried(first, events.drop_last(), key)
}

/// Whoever waits for the loop to start is answered only when every socket was tried: as long as
/// some socket was not, the answer is still owed.
pub proof fn law_start_comes_after_every_socket<T>(
    s: AcceptState<T>,
    events: Seq<Event<T>>,
    key: usize,
)
    requires
        s.wf(),
        s.phase is Created,
        s.starter is Some,
        answered(s.begin(), events),
        key < s.sockets.len(),
        !was_tried(s.begin(), events, key),
    ensures
        run(s.begin(), events).state.starter == s.starter,
        run(s.begin(), events).state.starting(),
        run(s.begin(), events).state.phase matches Phase::Register { keys, .. } && keys.contains(
            key,
        ) && keys[0] != key,
    decreases events.len(),
{
    let first = s.begin();
    law_beginning_is_valid(s);
    assert(request_fits(first));
    if events.len() == 0 {
        assert(crate::model::all_keys(s.sockets.len())[key as int] == key);
    } else {
        law_start_comes_after_every_socket(s, events.drop_last(), key);
        law_runs_stay_valid(first, events.drop_last());
        law_runs_stay_valid(first, events);
        let before = run(first, events.drop_last());
        law_answers_are_expected(before, events.last());
        if let Phase::Register { keys, .. } = before.state.phase {
            lemma_first_or_rest(keys, key);
            assert(keys.drop_first().len() == 0 ==> !keys.drop_first().contains(key));
        }
    }
}

/// A loop that is told to stop or to terminate, or that nobody can send commands to any more,
/// ends at once. Each socket is released, and whoever asked for the stop is answered last.
pub proof fn law_stop<T>(s: AcceptState<T>, event: Event<T>, key: usize)
    requires
        s.wf(),
        s.phase is Receive,
        event is Disconnected || (event matches Event::Command { command, .. } && (command is Stop
            || command is Terminate)),
    ensures
        s.next(event).state.phase is Stopped,
        s.next(event).request is Finish,
        key < s.sockets.len() ==> s.next(event).effects.contains(Effect::RemoveSource { key }),
        event matches Event::Command { command: AcceptorCommand::Stop(tx), .. } ==> s.next(
            event,
        ).effects.last() == (Effect::Answer {
            tx,
            delay: if s.testing {
                0
            } else {
                EXIT_TIMEOUT
            },
        }),
{
    let effects = s.next(event).effects;
    let before = if s.backpressure && event is Command && event->command is Stop {
        seq![]
    } else {
        s.press()
    };
    if key < s.sockets.len() {
        assert(crate::model::all_keys(s.sockets.len())[key as int] == key);
        assert(effects[before.len() + key] == (Effect::RemoveSource { key }));
    }
}

/// A loop that has ended expects nothing.
pub proof fn law_end_is_final<T>(s: AcceptState<T>, event: Event<T>)
    requires
        s.phase is Stopped,
    ensures
        !s.expects(event),
{
}

/// The status is reported only if somebody wants to know it, and it is reported as ready only
/// when the loop is told to resume.
pub proof fn law_status_reports<T>(s: AcceptState<T>, event: Event<T>, i: int)
    requires
        s.wf(),
        s.expects(event),
        0 <= i < s.next(event).effects.len(),
        s.next(event).effects[i] is Status,
    ensures
        s.reporting,
        s.next(event).effects[i] == Effect::Status(ServerStatus::Ready) ==> s.backpressure && (event
            matches Event::Command { command, .. } && command is Resume),
{
}

/// Only who waits is answered: whoever waits for the start, or asked for the stop.
pub proof fn law_answers<T>(s: AcceptState<T>, event: Event<T>, i: int)
    requires
        s.wf(),
        s.expects(event),
        0 <= i < s.next(event).effects.len(),
    ensures
        s.next(event).effects[i] matches Effect::Answer { tx, .. } ==> s.starter == Some(tx) || (
        event matches Event::Command { command, .. } && command == AcceptorCommand::Stop(tx)),
{
}

// ---------------------------------------------------------------------------
// Settings
// ---------------------------------------------------------------------------
/// A loop and its senders have the same name: from the beginning, and after each change of the
/// name. Sending a command changes neither.
pub proof fn law_names_agree(s: LoopState, server: Seq<char>)
    ensures
        LoopState::initial().name == LoopState::initial().notify.name,
        s.named(server).name == s.named(server).notify.name,
        s.name == s.notify.name ==> s.sent().name == s.sent().notify.name,
{
}

/// Commands are numbered one after the other: `n` sends raise the number by `n`, so those of a new
/// loop are numbered from 1 on. The name stays.
pub proof fn law_sends_are_numbered(s: NotifyState, n: nat)
    requires
        s.seq + n <= u64::MAX,
    ensures
        s.sent_times(n).seq == s.seq + n,
        s.sent_times(n).name == s.name,
        n > 0 ==> s.sent_times(n) == s.sent_times((n - 1) as nat).sent(),
    decreases n,
{
    if n > 0 {
        law_sends_are_numbered(s, (n - 1) as nat);
    }
}

/// All senders of a loop share its name and its numbers: whichever of them sends, the next one
/// goes on with the next number, and the settings stay as they were.
pub proof fn law_senders_share_numbers(s: LoopState)
    requires
        s.notify.seq + 2 <= u64::MAX,
    ensures
        s.sent().notify.seq == s.notify.seq + 1,
        s.sent().sent().notify.seq == s.notify.seq + 2,
        s.sent().notify.name == s.notify.name,
        s.sent() == (LoopState { notify: s.sent().notify, ..s }),
{
}

/// A new loop is called `ntex:accept`, and so are its senders. It has sent nothing, was not started,
/// is not being tested, and nobody wants to know its status.
pub proof fn law_new_settings()
    ensures
        LoopState::initial().name == "ntex:accept"@,
        LoopState::initial().notify.name == "ntex:accept"@,
        LoopState::initial().notify.seq == 0,
        !LoopState::initial().started,
        !LoopState::initial().testing,
        !LoopState::initial().reporting,
{
}

/// A loop is called as its server, with `:accept` behind it, and so are its senders. The name of the
/// server can be read off that of the loop.
pub proof fn law_server_name(s: LoopState, server: Seq<char>, other: Seq<char>)
    ensures
        s.named(server).name == server + ":accept"@,
        s.named(server).notify.name == server + ":accept"@,
        s.named(server).name == s.named(other).name ==> server == other,
{
    let a = server + ":accept"@;
    let b = other + ":accept"@;
    if a == b {
        assert(a.len() == b.len());
        assert(server =~= a.take(server.len() as int));
        assert(other =~= b.take(other.len() as int));
    }
}

/// Different commands have different names, and a `Stop` is called so whoever waits for it.
pub proof fn law_labels(a: AcceptorCommand, b: AcceptorCommand)
    ensures
        a.spec_label() == match a {
            AcceptorCommand::Stop(_) => "Stop"@,
            AcceptorCommand::Terminate => "Terminate"@,
            AcceptorCommand::Pause => "Pause"@,
            AcceptorCommand::Resume => "Resume"@,
            AcceptorCommand::Timer => "Timer"@,
        },
        a.spec_label() == b.spec_label() <==> (a is Stop && b is Stop) || a == b,
{
    reveal_strlit("Stop");
    reveal_strlit("Terminate");
    reveal_strlit("Pause");
    reveal_strlit("Resume");
    reveal_strlit("Timer");
    let (x, y) = (a.spec_label(), b.spec_label());
    if x == y {
        assert(x.len() == y.len());
        assert(x[0] == y[0]);
    }
}

/// Only the last name counts, and a name changes nothing else.
pub proof fn law_last_name_counts(s: LoopState, first: Seq<char>, last: Seq<char>)
    ensures
        s.named(first).named(last) == s.named(last),
        s.named(last).notify.seq == s.notify.seq,
        s.named(last).testing == s.testing,
        s.named(last).reporting == s.reporting,
        s.named(last).started == s.started,
{
}

} // verus!
