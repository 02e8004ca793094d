//! What the steps of the accept loop do to the world: which effects a step has, and in which order.
use crate::command::AcceptorCommand;
use crate::error::ErrorKind;
use crate::model::{AcceptState, Next, Phase};
use crate::protocol::{Effect, Event, ServerStatus};
use vstd::prelude::*;

verus! {

/// The event ends the loop.
pub open spec fn ends_loop<T>(event: Event<T>) -> bool {
    match event {
        Event::Command { command, .. } => command is Stop || command is Terminate,
        Event::Disconnected => true,
        _ => false,
    }
}

/// The event calls for back-pressure: the server does not take a connection that was just accepted,
/// or the loop is told to terminate, or nobody is left to command it, or it is told to pause or to
/// stop while it is not under back-pressure.
pub open spec fn calls_for_pressure<T>(s: AcceptState<T>, event: Event<T>) -> bool {
    match event {
        Event::Command { command, .. } => command is Terminate || (!s.backpressure && (
        command is Pause || command is Stop)),
        Event::Disconnected => true,
        Event::Refused { .. } => s.phase is Deliver,
        _ => false,
    }
}

/// The event takes back-pressure off: the loop is told to resume with nothing held back, or the
/// server takes the last connection that was held back.
pub open spec fn takes_pressure_off<T>(s: AcceptState<T>, event: Event<T>) -> bool {
    &&& s.backpressure
    &&& s.backlog.len() == 0
    &&& match event {
        Event::Command { command, .. } => command is Resume,
        Event::Delivered => s.phase is Drain,
        _ => false,
    }
}

/// The event is an error after which the socket being handled rests.
pub open spec fn is_lasting_error<T>(event: Event<T>) -> bool {
    match event {
        Event::RegisterFailed { kind, .. } => kind != ErrorKind::WouldBlock,
        Event::AcceptFailed { kind, .. } => {
            &&& kind != ErrorKind::WouldBlock
            &&& kind != ErrorKind::ConnectionRefused
            &&& kind != ErrorKind::ConnectionAborted
            &&& kind != ErrorKind::ConnectionReset
        },
        _ => false,
    }
}

/// The event settles the last registration before the loop has started.
pub open spec fn completes_start<T>(s: AcceptState<T>, event: Event<T>) -> bool {
    &&& s.phase matches Phase::Register { keys, next } && keys.len() == 1 && next is Start
    &&& event is Registered || is_lasting_error(event)
}

/// A list of keys without repetition, in order.
pub open spec fn ascending(keys: Seq<usize>) -> bool {
    forall|i: int, j: int| 0 <= i < j < keys.len() ==> #[trigger] keys[i] < #[trigger] keys[j]
}

/// Where an effect stands among those of its step.
pub open spec fn rank(effect: Effect) -> int {
    match effect {
        Effect::Status(_) => 0,
        Effect::Disable { .. } => 1,
        Effect::ScheduleTimer => 2,
        Effect::Warn { .. } => 3,
        Effect::RemoveSource { .. } => 4,
        Effect::Answer { .. } => 5,
    }
}

/// One effect of a step comes before another one: first the status, then the poller, then timers and
/// warnings, then the sockets are released, and last somebody is answered. Sockets are taken in
/// the order of their keys.
pub open spec fn precedes(a: Effect, b: Effect) -> bool {
    rank(a) < rank(b) || match (a, b) {
        (Effect::Disable { key }, Effect::Disable { key: other }) => key < other,
        (Effect::RemoveSource { key }, Effect::RemoveSource { key: other }) => key < other,
        _ => false,
    }
}

/// Every effect comes before the later ones.
pub open spec fn ordered(effects: Seq<Effect>) -> bool {
    forall|i: int, j: int|
        0 <= i < j < effects.len() ==> precedes(#[trigger] effects[i], #[trigger] effects[j])
}

// ---------------------------------------------------------------------------
// Parts of steps
// ---------------------------------------------------------------------------
/// The keys that a test picks come in order.
pub(crate) proof fn lemma_picked_in_order(n: nat, test: spec_fn(usize) -> bool)
    requires
        n <= usize::MAX,
    ensures
        ascending(crate::model::all_keys(n)),
        ascending(crate::model::all_keys(n).filter(test)),
    decreases n,
{
    reveal(Seq::filter);
    if n > 0 {
        let fewer = crate::model::all_keys((n - 1) as nat);
        let all = crate::model::all_keys(n);
        let last = (n - 1) as usize;
        assert(all =~= fewer.push(last));
        lemma_picked_in_order((n - 1) as nat, test);
        fewer.lemma_filter_push(last, test);
        assert forall|i: int| 0 <= i < fewer.filter(test).len() implies #[trigger] fewer.filter(
            test,
        )[i] < last by {
            assert(fewer.filter(test).contains(fewer.filter(test)[i]));
            crate::laws::lemma_picked((n - 1) as nat, test, fewer.filter(test)[i]);
        }
    }
}

/// What a report of the status contains.
proof fn lemma_report<T>(s: AcceptState<T>, status: ServerStatus, effect: Effect)
    ensures
        s.update_status(status).contains(effect) <==> s.reporting && effect == Effect::Status(
            status,
        ),
        s.update_status(status).len() <= 1,
{
    if s.reporting {
        assert(s.update_status(status)[0] == Effect::Status(status));
    }
}

/// What a call for back-pressure does.
proof fn lemma_press<T>(s: AcceptState<T>, effect: Effect)
    requires
        s.wf(),
    ensures
        s.press().contains(effect) <==> match effect {
            Effect::Status(status) => s.reporting && status is NotReady,
            Effect::Disable { key } => {
                &&& !s.backpressure
                &&& key < s.sockets.len()
                &&& s.sockets[key as int].registered
                &&& s.sockets[key as int].timeout is None
            },
            _ => false,
        },
        ordered(s.press()),
        forall|i: int| 0 <= i < s.press().len() ==> rank(#[trigger] s.press()[i]) <= 1,
{
    broadcast use vstd::seq_lib::lemma_seq_concat_contains_all_elements;

    let test = crate::model::watched(s.sockets);
    let picked = crate::model::all_keys(s.sockets.len()).filter(test);
    let disable = |key: usize| Effect::Disable { key };
    let report = s.update_status(ServerStatus::NotReady);
    let disabled = picked.map_values(disable);
    lemma_report(s, ServerStatus::NotReady, effect);
    lemma_picked_in_order(s.sockets.len(), test);
    if let Effect::Disable { key } = effect {
        crate::laws::lemma_picked(s.sockets.len(), test, key);
        if picked.contains(key) {
            let i = choose|i: int| 0 <= i < picked.len() && picked[i] == key;
            assert(disabled[i] == effect);
        }
        if disabled.contains(effect) {
            let i = choose|i: int| 0 <= i < disabled.len() && disabled[i] == effect;
            assert(picked[i] == key);
        }
    }
    assert(s.press() == if s.backpressure {
        report
    } else {
        report + disabled
    });
}

/// What the end of the loop adds to the effects before it.
proof fn lemma_stop<T>(
    s: AcceptState<T>,
    before: Seq<Effect>,
    tx: Option<oneshot::Sender<()>>,
    effect: Effect,
)
    requires
        s.wf(),
        ordered(before),
        forall|i: int| 0 <= i < before.len() ==> rank(#[trigger] before[i]) <= 1,
    ensures
        s.stop(before, tx).effects.contains(effect) <==> before.contains(effect) || match effect {
            Effect::RemoveSource { key } => key < s.sockets.len(),
            Effect::Answer { tx: answered, delay } => tx == Some(answered) && delay == (if s.testing {
                0u64
            } else {
                100u64
            }),
            _ => false,
        },
        ordered(s.stop(before, tx).effects),
{
    broadcast use vstd::seq_lib::lemma_seq_concat_contains_all_elements;
    broadcast use vstd::seq_lib::lemma_seq_contains_after_push;

    let keys = crate::model::all_keys(s.sockets.len());
    let released = keys.map_values(|key: usize| Effect::RemoveSource { key });
    if let Effect::RemoveSource { key } = effect {
        if key < s.sockets.len() {
            assert(keys[key as int] == key);
            assert(released[key as int] == effect);
        }
    }
    assert forall|i: int| 0 <= i < released.len() implies #[trigger] released[i]
        == (Effect::RemoveSource { key: i as usize }) by {
        assert(keys[i] == i as usize);
    }
    assert(ordered(before + released));
}

/// What going on with registrations adds to the effects before it.
proof fn lemma_register<T>(
    s: AcceptState<T>,
    before: Seq<Effect>,
    keys: Seq<usize>,
    next: Next<Seq<usize>>,
    effect: Effect,
)
    requires
        ordered(before),
        forall|i: int| 0 <= i < before.len() ==> rank(#[trigger] before[i]) <= 2,
    ensures
        s.register(before, keys, next).effects.contains(effect) <==> before.contains(effect) || {
            &&& keys.len() == 0
            &&& next is Start
            &&& effect matches Effect::Answer { tx, delay } && s.starter == Some(tx) && delay == 25
        },
        ordered(s.register(before, keys, next).effects),
{
    broadcast use vstd::seq_lib::lemma_seq_contains_after_push;

}

/// What the end of back-pressure adds to the effects before it.
proof fn lemma_drain<T>(
    s: AcceptState<T>,
    before: Seq<Effect>,
    round: crate::model::Round,
    effect: Effect,
)
    requires
        s.wf(),
        s.backpressure,
        ordered(before),
        forall|i: int| 0 <= i < before.len() ==> rank(#[trigger] before[i]) <= 1,
    ensures
        s.drain(before, round).effects.contains(effect) <==> before.contains(effect) || {
            &&& effect is ScheduleTimer
            &&& s.backlog.len() == 0
            &&& rests_without_timer(s)
        },
        ordered(s.drain(before, round).effects),
{
    broadcast use vstd::seq_lib::lemma_seq_contains_after_push;

    if s.backlog.len() == 0 {
        let eased = AcceptState { backpressure: false, ..s };
        let keys = crate::model::all_keys(s.sockets.len()).filter(crate::model::awake(s.sockets));
        lemma_overdue(s);
        match s.overdue() {
            Some(until) => {
                assert(ordered(before.push(Effect::ScheduleTimer)));
                lemma_register(
                    AcceptState { timers: s.timers.push(until), ..eased },
                    before.push(Effect::ScheduleTimer),
                    keys,
                    Next::Commands(round),
                    effect,
                );
            },
            None => {
                lemma_register(eased, before, keys, Next::Commands(round), effect);
            },
        }
    }
}

/// Some socket rests, and all timers that are to come were asked for earlier than its own.
pub open spec fn rests_without_timer<T>(s: AcceptState<T>) -> bool {
    exists|i: int|
        #![trigger s.sockets[i]]
        0 <= i < s.sockets.len() && (s.sockets[i].timeout matches Some(until) && forall|j: int|
            0 <= j < s.timers.len() ==> #[trigger] s.timers[j] < until)
}

/// When a timer is asked for at the end of back-pressure.
pub(crate) proof fn lemma_overdue<T>(s: AcceptState<T>)
    ensures
        s.overdue() is Some <==> rests_without_timer(s),
{
    crate::laws::lemma_last_rest(s.sockets);
    if let Some(last) = crate::model::last_rest(s.sockets) {
        let i = choose|i: int|
            0 <= i < s.sockets.len() && (#[trigger] s.sockets[i]).timeout == Some(last);
        assert(s.sockets[i].timeout == Some(last));
        if rests_without_timer(s) && crate::model::awaited(s.timers, last) {
            let k = choose|k: int|
                #![trigger s.sockets[k]]
                0 <= k < s.sockets.len() && (s.sockets[k].timeout matches Some(until) && forall|
                    j: int,
                |
                    0 <= j < s.timers.len() ==> #[trigger] s.timers[j] < until);
            let j = choose|j: int| 0 <= j < s.timers.len() && #[trigger] s.timers[j] >= last;
            assert(s.timers[j] < s.sockets[k].timeout->0);
            assert(false);
        }
    }
}

/// All effects of a step.
proof fn lemma_effects<T>(s: AcceptState<T>, event: Event<T>, effect: Effect)
    requires
        s.wf(),
        s.expects(event),
    ensures
        s.next(event).effects.contains(effect) <==> match effect {
            Effect::Status(status) => s.reporting && match status {
                ServerStatus::NotReady => calls_for_pressure(s, event),
                ServerStatus::Ready => s.backpressure && event is Command
                    && event->command is Resume,
            },
            Effect::Disable { key } => {
                &&& !s.backpressure
                &&& calls_for_pressure(s, event)
                &&& key < s.sockets.len()
                &&& s.sockets[key as int].registered
                &&& s.sockets[key as int].timeout is None
            },
            Effect::ScheduleTimer => is_lasting_error(event) || (takes_pressure_off(s, event)
                && rests_without_timer(s)),
            Effect::Warn { key, count } => {
                &&& event matches Event::AcceptFailed { kind, .. } && (kind
                    == ErrorKind::ConnectionRefused || kind == ErrorKind::ConnectionAborted || kind
                    == ErrorKind::ConnectionReset)
                &&& s.phase matches Phase::Accept { keys, errors } && key == keys[0] && count
                    == errors.wrapping_add(1)
                &&& count <= 8 || exists|i: nat| vstd::arithmetic::power::pow(2, i) == count
            },
            Effect::RemoveSource { key } => ends_loop(event) && key < s.sockets.len(),
            Effect::Answer { tx, delay } => {
                ||| completes_start(s, event) && s.starter == Some(tx) && delay == 25
                ||| event matches Event::Command { command: AcceptorCommand::Stop(asked), .. }
                    && asked == tx && delay == (if s.testing {
                    0u64
                } else {
                    100u64
                })
            },
        },
        ordered(s.next(event).effects),
{
    broadcast use vstd::seq_lib::lemma_seq_contains_after_push;

    let none = Seq::<Effect>::empty();
    let timer = seq![Effect::ScheduleTimer];
    assert(timer =~= none.push(Effect::ScheduleTimer));
    match s.phase {
        Phase::Register { keys, next } => {
            let rest = keys.drop_first();
            match event {
                Event::RegisterFailed { kind, now } => {
                    if !(kind is WouldBlock) {
                        lemma_register(s.resting(keys[0], now), timer, rest, next, effect);
                    }
                },
                _ => {
                    let info = s.sockets[keys[0] as int];
                    lemma_register(
                        s.with_socket(
                            keys[0],
                            crate::protocol::ServerSocketInfo { registered: true, ..info },
                        ),
                        none,
                        rest,
                        next,
                        effect,
                    );
                },
            }
        },
        Phase::Receive(round) => {
            lemma_press(s, effect);
            match event {
                Event::Command { command, now } => match command {
                    AcceptorCommand::Stop(tx) => {
                        if s.backpressure {
                            lemma_stop(s, none, Some(tx), effect);
                        } else {
                            lemma_stop(s.pressed(), s.press(), Some(tx), effect);
                        }
                    },
                    AcceptorCommand::Terminate => {
                        lemma_stop(s.pressed(), s.press(), None, effect);
                    },
                    AcceptorCommand::Pause => {},
                    AcceptorCommand::Resume => {
                        if s.backpressure {
                            lemma_report(s, ServerStatus::Ready, effect);
                            lemma_drain(s, s.update_status(ServerStatus::Ready), round, effect);
                        }
                    },
                    AcceptorCommand::Timer => {},
                },
                Event::Disconnected => {
                    lemma_stop(s.pressed(), s.press(), None, effect);
                },
                _ => {},
            }
        },
        Phase::Accept { keys, errors } => {
            if let Event::AcceptFailed { kind, .. } = event {
                let count = errors.wrapping_add(1);
                assert(seq![Effect::Warn { key: keys[0], count }] =~= none.push(
                    Effect::Warn { key: keys[0], count },
                ));
            }
        },
        Phase::Deliver { .. } => {
            lemma_press(s, effect);
        },
        Phase::Drain(round) => {
            if let Event::Delivered = event {
                lemma_drain(s, none, round, effect);
            }
        },
        _ => {},
    }
}

// ---------------------------------------------------------------------------
// Laws
// ---------------------------------------------------------------------------
/// The loop is under back-pressure after a step exactly when the event called for it, or when the
/// loop was so before and the event did not take it off.
pub proof fn law_pressure<T>(s: AcceptState<T>, event: Event<T>)
    requires
        s.wf(),
        s.expects(event),
    ensures
        s.next(event).state.backpressure <==> calls_for_pressure(s, event) || (s.backpressure
            && !takes_pressure_off(s, event)),
{
}

/// The poller is told that a socket is of no interest exactly when back-pressure begins, and exactly
/// of the sockets that it watches: those that it knows and that do not rest. No other step, whatever
/// the settings, takes a socket away from the poller.
pub proof fn law_disable<T>(s: AcceptState<T>, event: Event<T>, key: usize)
    requires
        s.wf(),
        s.expects(event),
    ensures
        s.next(event).effects.contains(Effect::Disable { key }) <==> {
            &&& !s.backpressure
            &&& s.next(event).state.backpressure
            &&& key < s.sockets.len()
            &&& s.sockets[key as int].registered
            &&& s.sockets[key as int].timeout is None
        },
{
    lemma_effects(s, event, Effect::Disable { key });
    law_pressure(s, event);
}

/// A registration that the poller takes has no effects, but for the answer to whoever waits for the
/// start: the socket stays armed.
pub proof fn law_registered_socket_stays_armed<T>(s: AcceptState<T>, i: int)
    requires
        s.wf(),
        s.phase is Register,
        0 <= i < s.next(Event::Registered).effects.len(),
    ensures
        s.next(Event::Registered).effects.len() == 1,
        s.next(Event::Registered).effects[i] matches Effect::Answer { tx, delay } && s.starter
            == Some(tx) && delay == 25,
{
    let effects = s.next(Event::<T>::Registered).effects;
    assert(effects.contains(effects[i]));
    lemma_effects(s, Event::Registered, effects[i]);
    if effects.len() > 1 {
        let other = if i == 0 {
            1int
        } else {
            0int
        };
        assert(effects.contains(effects[other]));
        lemma_effects(s, Event::Registered, effects[other]);
        assert(precedes(effects[0], effects[1]) || precedes(effects[other], effects[i]));
    }
}

/// The status is reported if and only if somebody wants to know it and it is called for: as not ready
/// whenever back-pressure is called for, and as ready when the loop is told to resume under
/// back-pressure. No other step reports anything.
pub proof fn law_status<T>(s: AcceptState<T>, event: Event<T>)
    requires
        s.wf(),
        s.expects(event),
    ensures
        s.next(event).effects.contains(Effect::Status(ServerStatus::NotReady)) <==> s.reporting
            && calls_for_pressure(s, event),
        s.next(event).effects.contains(Effect::Status(ServerStatus::Ready)) <==> s.reporting
            && s.backpressure && (event matches Event::Command { command, .. }
            && command is Resume),
{
    lemma_effects(s, event, Effect::Status(ServerStatus::NotReady));
    lemma_effects(s, event, Effect::Status(ServerStatus::Ready));
}

/// A timer is asked for after each error that makes a socket rest, and when back-pressure ends if a
/// socket rests whose timer has come already. No other step asks for one.
pub proof fn law_timer_requests<T>(s: AcceptState<T>, event: Event<T>)
    requires
        s.wf(),
        s.expects(event),
    ensures
        s.next(event).effects.contains(Effect::ScheduleTimer) <==> is_lasting_error(event) || {
            &&& s.backpressure
            &&& !s.next(event).state.backpressure
            &&& rests_without_timer(s)
        },
{
    lemma_effects(s, event, Effect::ScheduleTimer);
    law_pressure(s, event);
}

/// A warning is given exactly for an error of one connection, of the socket that is being accepted
/// on, if it is one of the first eight in a row or if their number is a power of two.
pub proof fn law_warnings<T>(s: AcceptState<T>, event: Event<T>, key: usize, count: usize)
    requires
        s.wf(),
        s.expects(event),
    ensures
        s.next(event).effects.contains(Effect::Warn { key, count }) <==> {
            &&& event matches Event::AcceptFailed { kind, .. } && (kind
                == ErrorKind::ConnectionRefused || kind == ErrorKind::ConnectionAborted || kind
                == ErrorKind::ConnectionReset)
            &&& s.phase matches Phase::Accept { keys, errors } && key == keys[0] && count
                == errors.wrapping_add(1)
            &&& count <= 8 || exists|i: nat| vstd::arithmetic::power::pow(2, i) == count
        },
{
    lemma_effects(s, event, Effect::Warn { key, count });
}

/// The sockets are released exactly when the loop ends, each of them.
pub proof fn law_release<T>(s: AcceptState<T>, event: Event<T>, key: usize)
    requires
        s.wf(),
        s.expects(event),
    ensures
        s.next(event).effects.contains(Effect::RemoveSource { key }) <==> ends_loop(event) && key
            < s.sockets.len(),
        s.next(event).state.phase is Stopped <==> ends_loop(event),
{
    lemma_effects(s, event, Effect::RemoveSource { key });
}

/// Somebody is answered exactly when the last socket was tried at the start, which is 25 milliseconds
/// later told to whoever waits for it, or when the loop is told to stop, which is told to whoever
/// asked for it: at once if the loop is being tested, else after 100 milliseconds.
pub proof fn law_answered<T>(s: AcceptState<T>, event: Event<T>, tx: oneshot::Sender<()>, delay: u64)
    requires
        s.wf(),
        s.expects(event),
    ensures
        s.next(event).effects.contains(Effect::Answer { tx, delay }) <==> {
            ||| completes_start(s, event) && s.starter == Some(tx) && delay == 25
            ||| event matches Event::Command { command: AcceptorCommand::Stop(asked), .. } && asked
                == tx && delay == (if s.testing {
                0u64
            } else {
                100u64
            })
        },
{
    lemma_effects(s, event, Effect::Answer { tx, delay });
}

/// The effects of a step come in order, and none of them twice: the status, the poller, timers and
/// warnings, the release of sockets, the answer; sockets in the order of their keys.
pub proof fn law_effects_in_order<T>(s: AcceptState<T>, event: Event<T>)
    requires
        s.wf(),
        s.expects(event),
    ensures
        ordered(s.next(event).effects),
{
    lemma_effects(s, event, Effect::ScheduleTimer);
}

/// With the same effects in the same order two lists of effects are the same: so the laws on which
/// effects a step has, and on their order, leave nothing open.
pub proof fn law_order_and_contents_decide(a: Seq<Effect>, b: Seq<Effect>)
    requires
        ordered(a),
        ordered(b),
        forall|effect: Effect| #[trigger] a.contains(effect) <==> b.contains(effect),
    ensures
        a == b,
    decreases a.len(),
{
    if a.len() == 0 {
        if b.len() > 0 {
            assert(b.contains(b[0]));
            assert(!a.contains(b[0]));
        }
    } else {
        assert(a.contains(a[0]));
        assert(b.contains(a[0]));
        let i = choose|i: int| 0 <= i < b.len() && b[i] == a[0];
        assert(b.contains(b[0]));
        assert(a.contains(b[0]));
        let j = choose|j: int| 0 <= j < a.len() && a[j] == b[0];
        if i > 0 && j > 0 {
            assert(precedes(b[0], b[i]));
            assert(precedes(a[0], a[j]));
        }
        let first = a[0];
        assert(b[0] == first);
        let c = a.drop_first();
        let d = b.drop_first();
        assert(ordered(c)) by {
            assert forall|i: int, j: int| 0 <= i < j < c.len() implies precedes(
                #[trigger] c[i],
                #[trigger] c[j],
            ) by {
                assert(precedes(a[i + 1], a[j + 1]));
            }
        }
        assert(ordered(d)) by {
            assert forall|i: int, j: int| 0 <= i < j < d.len() implies precedes(
                #[trigger] d[i],
                #[trigger] d[j],
            ) by {
                assert(precedes(b[i + 1], b[j + 1]));
            }
        }
        assert forall|effect: Effect| #[trigger] c.contains(effect) <==> d.contains(effect) by {
            lemma_later(a, effect);
            lemma_later(b, effect);
        }
        law_order_and_contents_decide(c, d);
        assert(a =~= seq![first] + c);
        assert(b =~= seq![first] + d);
    }
}

/// What comes after the first effect of an ordered list is the list without it.
proof fn lemma_later(effects: Seq<Effect>, effect: Effect)
    requires
        effects.len() > 0,
        ordered(effects),
    ensures
        effects.drop_first().contains(effect) <==> effects.contains(effect) && effect != effects[0],
{
    let rest = effects.drop_first();
    if rest.contains(effect) {
        let i = choose|i: int| 0 <= i < rest.len() && rest[i] == effect;
        assert(effects[i + 1] == effect);
        assert(precedes(effects[0], effects[i + 1]));
    }
    if effects.contains(effect) && effect != effects[0] {
        let i = choose|i: int| 0 <= i < effects.len() && effects[i] == effect;
        assert(rest[i - 1] == effect);
    }
}

} // verus!
