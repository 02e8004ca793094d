use ntex_accept::protocol::{
    Connection, Effect, Event, Output, Request, ServerStatus, Token, ERR_SLEEP_TIMEOUT,
    ERR_TIMEOUT,
};
use ntex_accept::{Accept, AcceptLoop, AcceptorCommand, ErrorKind};

const SECOND: u64 = 1_000_000_000;

/// A loop whose `n` sockets are registered, and that looks for a command. The token of the socket
/// with key `k` is `10 + k`.
fn started(n: usize, testing: bool, reporting: bool) -> Accept<u32> {
    let mut accept_loop = AcceptLoop::new();
    if testing {
        accept_loop.testing();
    }
    if reporting {
        accept_loop.set_status_handler();
    }
    let tokens: Vec<Token> = (0..n).map(|k| Token(10 + k)).collect();
    let mut accept = accept_loop.start(tokens).accept;
    let mut out = accept.begin();
    for k in 0..n {
        assert_register(&out, k, false);
        out = accept.poll(Event::Registered);
    }
    assert!(matches!(out.request, Request::Receive));
    assert_eq!(out.effects.len(), 1);
    assert!(matches!(out.effects[0], Effect::Answer { delay: 25, .. }));
    accept
}

fn poll(accept: &mut Accept<u32>, event: Event<u32>) -> Output<u32> {
    assert!(accept.expects(&event));
    accept.poll(event)
}

fn command(accept: &mut Accept<u32>, command: AcceptorCommand, now: u64) -> Output<u32> {
    poll(accept, Event::Command { command, now })
}

/// Takes a started loop out of the back-pressure that it begins with.
fn resume(accept: &mut Accept<u32>, n: usize) {
    let mut out = command(accept, AcceptorCommand::Resume, 0);
    for k in 0..n {
        assert_register(&out, k, true);
        out = poll(accept, Event::Registered);
    }
    assert!(matches!(out.request, Request::Receive));
}

/// Lets a loop that looks for a command wait, and wakes it.
fn wake(accept: &mut Accept<u32>, keys: Vec<usize>) -> Output<u32> {
    let out = poll(accept, Event::NoCommand);
    assert!(matches!(out.request, Request::Wait));
    assert!(out.effects.is_empty());
    poll(accept, Event::Woken { keys })
}

fn assert_register(out: &Output<u32>, expected: usize, expected_update: bool) {
    match out.request {
        Request::Register { key, update } => {
            assert_eq!(key, expected);
            assert_eq!(update, expected_update);
        }
        _ => panic!("a socket is registered"),
    }
}

fn assert_deliver(out: Output<u32>, io: u32, token: usize) -> Connection<u32> {
    match out.request {
        Request::Deliver { connection } => {
            assert_eq!(connection.io, io);
            assert_eq!(connection.token, Token(token));
            connection
        }
        _ => panic!("a connection is offered"),
    }
}

/// Refuses a connection that was accepted on the socket with the given key.
fn refuse(accept: &mut Accept<u32>, key: usize, io: u32) -> Output<u32> {
    let out = poll(accept, Event::Accepted { io });
    assert!(out.effects.is_empty());
    let connection = assert_deliver(out, io, 10 + key);
    poll(accept, Event::Refused { connection })
}

#[test]
fn accepts_until_no_connection_is_left() {
    let mut accept = started(2, false, false);
    let out = wake(&mut accept, vec![1]);
    assert!(matches!(out.request, Request::Accept { key: 1 }));
    let out = poll(&mut accept, Event::Accepted { io: 5 });
    assert_deliver(out, 5, 11);
    let out = poll(&mut accept, Event::Delivered);
    assert!(matches!(out.request, Request::Accept { key: 1 }));
    let out = poll(&mut accept, Event::NoConnection);
    assert_register(&out, 1, true);
    let out = poll(&mut accept, Event::Registered);
    // commands are looked for after the events and again before the wait
    assert!(matches!(out.request, Request::Receive));
    let out = poll(&mut accept, Event::NoCommand);
    assert!(matches!(out.request, Request::Receive));
    let out = poll(&mut accept, Event::NoCommand);
    assert!(matches!(out.request, Request::Wait));
}

#[test]
fn would_block_registers_again() {
    let mut accept = started(1, false, false);
    wake(&mut accept, vec![0]);
    let out = poll(&mut accept, Event::AcceptFailed { kind: ErrorKind::WouldBlock, now: 1 });
    assert_register(&out, 0, true);
    assert!(out.effects.is_empty());
}

#[test]
fn events_are_handled_in_order_and_unknown_keys_skipped() {
    let mut accept = started(3, false, false);
    let out = wake(&mut accept, vec![7, 2, 3, 0, usize::MAX]);
    assert!(matches!(out.request, Request::Accept { key: 2 }));
    let out = poll(&mut accept, Event::NoConnection);
    assert_register(&out, 2, true);
    let out = poll(&mut accept, Event::Registered);
    assert!(matches!(out.request, Request::Accept { key: 0 }));
    let out = poll(&mut accept, Event::NoConnection);
    assert_register(&out, 0, true);
    let out = poll(&mut accept, Event::Registered);
    assert!(matches!(out.request, Request::Receive));
}

#[test]
fn wait_without_events() {
    let mut accept = started(1, false, false);
    let out = wake(&mut accept, vec![]);
    assert!(matches!(out.request, Request::Receive));
}

#[test]
fn unregistered_sockets_are_skipped() {
    let mut accept_loop = AcceptLoop::new();
    let mut accept: Accept<u32> = accept_loop.start(vec![Token(1), Token(2)]).accept;
    accept.begin();
    let out = poll(&mut accept, Event::RegisterFailed { kind: ErrorKind::Other, now: 0 });
    assert_eq!(out.effects.len(), 1);
    assert!(matches!(out.effects[0], Effect::ScheduleTimer));
    assert_register(&out, 1, false);
    let out = poll(&mut accept, Event::Registered);
    assert!(matches!(out.effects[0], Effect::Answer { delay: 25, .. }));
    let out = wake(&mut accept, vec![0, 1]);
    assert!(matches!(out.request, Request::Accept { key: 1 }));
}

#[test]
fn start_is_answered_with_the_timer_of_the_last_socket() {
    let mut accept_loop = AcceptLoop::new();
    let mut accept: Accept<u32> = accept_loop.start(vec![Token(1)]).accept;
    accept.begin();
    let out = poll(&mut accept, Event::RegisterFailed { kind: ErrorKind::Other, now: 0 });
    assert_eq!(out.effects.len(), 2);
    assert!(matches!(out.effects[0], Effect::ScheduleTimer));
    assert!(matches!(out.effects[1], Effect::Answer { delay: 25, .. }));
    assert!(matches!(out.request, Request::Receive));
}

#[test]
fn blocked_registration_is_tried_again() {
    let mut accept_loop = AcceptLoop::new();
    let mut accept: Accept<u32> = accept_loop.start(vec![Token(1)]).accept;
    accept.begin();
    for now in 0..3 {
        let out = poll(&mut accept, Event::RegisterFailed { kind: ErrorKind::WouldBlock, now });
        assert_register(&out, 0, false);
        assert!(out.effects.is_empty());
    }
    let out = poll(&mut accept, Event::Registered);
    assert!(matches!(out.request, Request::Receive));
}

#[test]
fn connection_errors_are_skipped_and_warned_of() {
    let kinds = [
        ErrorKind::ConnectionReset,
        ErrorKind::ConnectionAborted,
        ErrorKind::ConnectionRefused,
    ];
    let mut accept = started(1, false, false);
    wake(&mut accept, vec![0]);
    for n in 1..=70usize {
        let out = poll(&mut accept, Event::AcceptFailed { kind: kinds[n % 3], now: 0 });
        assert!(matches!(out.request, Request::Accept { key: 0 }));
        if n <= 8 || n == 16 || n == 32 || n == 64 {
            assert_eq!(out.effects.len(), 1);
            match out.effects[0] {
                Effect::Warn { key, count } => {
                    assert_eq!(key, 0);
                    assert_eq!(count, n);
                }
                _ => panic!("a warning is given"),
            }
        } else {
            assert!(out.effects.is_empty());
        }
    }
}

#[test]
fn connection_errors_are_counted_across_connections() {
    let mut accept = started(1, false, false);
    wake(&mut accept, vec![0]);
    poll(&mut accept, Event::AcceptFailed { kind: ErrorKind::ConnectionReset, now: 0 });
    let out = poll(&mut accept, Event::Accepted { io: 1 });
    assert_deliver(out, 1, 10);
    poll(&mut accept, Event::Delivered);
    let out = poll(&mut accept, Event::AcceptFailed { kind: ErrorKind::ConnectionReset, now: 0 });
    assert!(matches!(out.effects[0], Effect::Warn { key: 0, count: 2 }));
}

#[test]
fn connection_errors_change_nothing_else() {
    let mut plain = started(2, false, true);
    let mut failing = started(2, false, true);
    resume(&mut plain, 2);
    resume(&mut failing, 2);
    wake(&mut plain, vec![1, 0]);
    wake(&mut failing, vec![1, 0]);
    for now in 0..20 {
        let kind = ErrorKind::ConnectionAborted;
        let out = poll(&mut failing, Event::AcceptFailed { kind, now });
        assert!(out.effects.iter().all(|effect| matches!(effect, Effect::Warn { key: 1, .. })));
        assert!(matches!(out.request, Request::Accept { key: 1 }));
    }
    // the same connection is refused, with the same effects, and the other event is still there
    let one = refuse(&mut plain, 1, 3);
    let other = refuse(&mut failing, 1, 3);
    assert_eq!(format!("{:?}", one), format!("{:?}", other));
    assert!(matches!(one.request, Request::Accept { key: 0 }));
    assert_eq!(format!("{:?}", plain), format!("{:?}", failing));
}

#[test]
fn other_accept_errors_incur_a_timeout() {
    let mut accept = started(1, false, false);
    resume(&mut accept, 1);
    wake(&mut accept, vec![0]);
    let out = poll(&mut accept, Event::AcceptFailed { kind: ErrorKind::Other, now: SECOND });
    assert_eq!(out.effects.len(), 1);
    assert!(matches!(out.effects[0], Effect::ScheduleTimer));
    assert!(matches!(out.request, Request::Receive));
    // not yet
    let out = command(&mut accept, AcceptorCommand::Timer, SECOND + ERR_TIMEOUT);
    assert!(matches!(out.request, Request::Receive));
    assert!(out.effects.is_empty());
    // the scheduled timer is late enough
    let later = SECOND + u64::from(ERR_SLEEP_TIMEOUT) * 1_000_000;
    let out = command(&mut accept, AcceptorCommand::Timer, later);
    assert_register(&out, 0, true);
    let out = poll(&mut accept, Event::Registered);
    assert!(matches!(out.request, Request::Receive));
    // the rest is over
    let out = command(&mut accept, AcceptorCommand::Timer, later + SECOND);
    assert!(matches!(out.request, Request::Receive));
}

#[test]
fn timer_after_the_timeout_to_the_nanosecond() {
    let mut accept = started(1, false, false);
    resume(&mut accept, 1);
    wake(&mut accept, vec![0]);
    poll(&mut accept, Event::AcceptFailed { kind: ErrorKind::Interrupted, now: 3 });
    let out = command(&mut accept, AcceptorCommand::Timer, 500_000_003);
    assert!(matches!(out.request, Request::Receive));
    let out = command(&mut accept, AcceptorCommand::Timer, 500_000_004);
    assert_register(&out, 0, true);
}

#[test]
fn timer_wakes_expired_sockets_only() {
    let mut accept = started(3, false, false);
    resume(&mut accept, 3);
    wake(&mut accept, vec![0, 1, 2]);
    poll(&mut accept, Event::AcceptFailed { kind: ErrorKind::Other, now: 0 });
    poll(&mut accept, Event::AcceptFailed { kind: ErrorKind::Other, now: SECOND });
    let out = poll(&mut accept, Event::AcceptFailed { kind: ErrorKind::Other, now: 0 });
    assert!(matches!(out.request, Request::Receive));
    let out = command(&mut accept, AcceptorCommand::Timer, SECOND);
    assert_register(&out, 0, true);
    let out = poll(&mut accept, Event::RegisterFailed { kind: ErrorKind::Other, now: SECOND });
    assert_register(&out, 2, true);
    assert!(matches!(out.effects[0], Effect::ScheduleTimer));
    let out = poll(&mut accept, Event::Registered);
    assert!(matches!(out.request, Request::Receive));
    let out = command(&mut accept, AcceptorCommand::Timer, 2 * SECOND);
    assert_register(&out, 0, true);
    let out = poll(&mut accept, Event::Registered);
    assert_register(&out, 1, true);
}

#[test]
fn timer_does_nothing_under_back_pressure() {
    let mut accept = started(1, false, false);
    assert!(accept.is_backpressure());
    wake(&mut accept, vec![0]);
    poll(&mut accept, Event::AcceptFailed { kind: ErrorKind::Other, now: 0 });
    let out = command(&mut accept, AcceptorCommand::Timer, 5 * SECOND);
    assert!(matches!(out.request, Request::Receive));
    assert!(out.effects.is_empty());
}

#[test]
fn socket_that_rests_when_back_pressure_ends_comes_back() {
    let mut accept = started(2, false, true);
    wake(&mut accept, vec![1]);
    poll(&mut accept, Event::AcceptFailed { kind: ErrorKind::Other, now: 0 });
    // its own timer comes too early
    command(&mut accept, AcceptorCommand::Timer, 525_000_000);
    // the other socket is registered, for this one a timer is asked for
    let out = command(&mut accept, AcceptorCommand::Resume, SECOND);
    assert_eq!(out.effects.len(), 2);
    assert!(matches!(out.effects[0], Effect::Status(ServerStatus::Ready)));
    assert!(matches!(out.effects[1], Effect::ScheduleTimer));
    assert_register(&out, 0, true);
    let out = poll(&mut accept, Event::Registered);
    assert!(matches!(out.request, Request::Receive));
    assert!(!accept.is_backpressure());
    let later = SECOND + u64::from(ERR_SLEEP_TIMEOUT) * 1_000_000;
    let out = command(&mut accept, AcceptorCommand::Timer, later);
    assert_register(&out, 1, true);
    let out = poll(&mut accept, Event::Registered);
    assert!(matches!(out.request, Request::Receive));
}

#[test]
fn socket_that_could_not_be_registered_at_the_start_comes_back() {
    let mut accept_loop = AcceptLoop::new();
    let mut accept: Accept<u32> = accept_loop.start(vec![Token(1)]).accept;
    accept.begin();
    poll(&mut accept, Event::RegisterFailed { kind: ErrorKind::Other, now: 0 });
    command(&mut accept, AcceptorCommand::Timer, 525_000_000);
    let out = command(&mut accept, AcceptorCommand::Resume, SECOND);
    assert_eq!(out.effects.len(), 1);
    assert!(matches!(out.effects[0], Effect::ScheduleTimer));
    assert!(matches!(out.request, Request::Receive));
    let out = command(&mut accept, AcceptorCommand::Timer, 2 * SECOND);
    assert_register(&out, 0, false);
}

#[test]
fn socket_that_fails_after_a_refusal_comes_back() {
    let mut accept = started(2, false, false);
    resume(&mut accept, 2);
    wake(&mut accept, vec![0, 1]);
    let out = refuse(&mut accept, 0, 7);
    assert!(matches!(out.request, Request::Accept { key: 1 }));
    poll(&mut accept, Event::AcceptFailed { kind: ErrorKind::Other, now: 0 });
    command(&mut accept, AcceptorCommand::Timer, 525_000_000);
    let out = command(&mut accept, AcceptorCommand::Resume, SECOND);
    assert!(out.effects.is_empty());
    assert_deliver(out, 7, 10);
    let out = poll(&mut accept, Event::Delivered);
    assert_eq!(out.effects.len(), 1);
    assert!(matches!(out.effects[0], Effect::ScheduleTimer));
    assert_register(&out, 0, true);
    poll(&mut accept, Event::Registered);
    let out = command(&mut accept, AcceptorCommand::Timer, 2 * SECOND);
    assert_register(&out, 1, true);
}

#[test]
fn socket_whose_timer_is_still_to_come_gets_no_second_one() {
    let mut accept_loop = AcceptLoop::new();
    let mut accept: Accept<u32> = accept_loop.start(vec![Token(1)]).accept;
    accept.begin();
    let out = poll(&mut accept, Event::RegisterFailed { kind: ErrorKind::Other, now: 0 });
    assert!(matches!(out.effects[0], Effect::ScheduleTimer));
    let out = command(&mut accept, AcceptorCommand::Resume, 1);
    assert!(out.effects.is_empty());
    assert!(matches!(out.request, Request::Receive));
    assert!(!accept.is_backpressure());
    let out = command(&mut accept, AcceptorCommand::Timer, 525_000_000);
    assert_register(&out, 0, false);
}

#[test]
fn last_timer_wakes_every_socket() {
    let mut accept = started(2, false, false);
    wake(&mut accept, vec![0, 1]);
    poll(&mut accept, Event::AcceptFailed { kind: ErrorKind::Other, now: 0 });
    poll(&mut accept, Event::AcceptFailed { kind: ErrorKind::Other, now: 20_000_000 });
    // the first timer comes under back-pressure, the second one is still to come
    let out = command(&mut accept, AcceptorCommand::Timer, 530_000_000);
    assert!(matches!(out.request, Request::Receive));
    let out = command(&mut accept, AcceptorCommand::Resume, 535_000_000);
    assert!(out.effects.is_empty());
    assert!(matches!(out.request, Request::Receive));
    let out = command(&mut accept, AcceptorCommand::Timer, 545_000_000);
    assert_register(&out, 0, true);
    let out = poll(&mut accept, Event::Registered);
    assert_register(&out, 1, true);
}

#[test]
fn timer_that_was_not_asked_for_counts_for_none() {
    let mut accept = started(1, false, false);
    wake(&mut accept, vec![0]);
    poll(&mut accept, Event::AcceptFailed { kind: ErrorKind::Other, now: 0 });
    command(&mut accept, AcceptorCommand::Timer, 1);
    let out = command(&mut accept, AcceptorCommand::Resume, 2);
    assert!(out.effects.is_empty());
    let out = command(&mut accept, AcceptorCommand::Timer, 525_000_000);
    assert_register(&out, 0, true);
}

#[test]
fn timer_after_back_pressure_is_one_of_those_to_come() {
    let mut accept = started(1, false, false);
    wake(&mut accept, vec![0]);
    poll(&mut accept, Event::AcceptFailed { kind: ErrorKind::Other, now: 0 });
    command(&mut accept, AcceptorCommand::Timer, 525_000_000);
    let out = command(&mut accept, AcceptorCommand::Resume, SECOND);
    assert_eq!(out.effects.len(), 1);
    assert!(matches!(out.effects[0], Effect::ScheduleTimer));
    // back-pressure begins again and ends the rest
    command(&mut accept, AcceptorCommand::Pause, SECOND + 1);
    let out = command(&mut accept, AcceptorCommand::Resume, SECOND + 2);
    assert!(out.effects.is_empty());
    assert_register(&out, 0, true);
}

#[test]
fn no_timer_is_asked_for_when_no_socket_rests() {
    let mut accept = started(2, false, false);
    let out = command(&mut accept, AcceptorCommand::Resume, 0);
    assert!(out.effects.is_empty());
    assert_register(&out, 0, true);
}

#[test]
fn repeated_commands_change_nothing() {
    let mut plain = started(2, false, true);
    let mut repeated = started(2, false, true);
    let out = command(&mut repeated, AcceptorCommand::Pause, 3);
    assert!(out.effects.is_empty());
    resume(&mut plain, 2);
    resume(&mut repeated, 2);
    let out = command(&mut repeated, AcceptorCommand::Resume, 4);
    assert!(out.effects.is_empty());
    let one = command(&mut plain, AcceptorCommand::Pause, 5);
    let other = command(&mut repeated, AcceptorCommand::Pause, 5);
    assert_eq!(format!("{:?}", one), format!("{:?}", other));
    assert_eq!(format!("{:?}", plain), format!("{:?}", repeated));
}

#[test]
fn resting_socket_is_left_alone() {
    let mut accept = started(2, false, false);
    resume(&mut accept, 2);
    wake(&mut accept, vec![0]);
    poll(&mut accept, Event::AcceptFailed { kind: ErrorKind::Other, now: 0 });
    poll(&mut accept, Event::NoCommand);
    let out = wake(&mut accept, vec![1]);
    assert!(matches!(out.request, Request::Accept { key: 1 }));
    let out = poll(&mut accept, Event::NoConnection);
    assert_register(&out, 1, true);
    let out = poll(&mut accept, Event::Registered);
    assert!(matches!(out.request, Request::Receive));
}

#[test]
fn refused_connection_begins_back_pressure() {
    let mut accept = started(3, false, true);
    resume(&mut accept, 3);
    wake(&mut accept, vec![1, 2]);
    let out = poll(&mut accept, Event::AcceptFailed { kind: ErrorKind::Other, now: 0 });
    assert!(matches!(out.request, Request::Accept { key: 2 }));
    let out = refuse(&mut accept, 2, 8);
    // the resting socket is not disabled, and its rest ends
    assert_eq!(out.effects.len(), 3);
    assert!(matches!(out.effects[0], Effect::Status(ServerStatus::NotReady)));
    assert!(matches!(out.effects[1], Effect::Disable { key: 0 }));
    assert!(matches!(out.effects[2], Effect::Disable { key: 2 }));
    assert!(matches!(out.request, Request::Receive));
    let out = command(&mut accept, AcceptorCommand::Resume, 1);
    assert_eq!(out.effects.len(), 1);
    assert!(matches!(out.effects[0], Effect::Status(ServerStatus::Ready)));
    assert_deliver(out, 8, 12);
    let out = poll(&mut accept, Event::Delivered);
    assert_register(&out, 0, true);
    let out = poll(&mut accept, Event::Registered);
    assert_register(&out, 1, true);
    let out = poll(&mut accept, Event::Registered);
    assert_register(&out, 2, true);
    let out = poll(&mut accept, Event::Registered);
    assert!(matches!(out.request, Request::Receive));
}

#[test]
fn backlog_goes_out_oldest_first() {
    let mut accept = started(3, false, false);
    wake(&mut accept, vec![2, 0, 1]);
    refuse(&mut accept, 2, 100);
    refuse(&mut accept, 0, 101);
    refuse(&mut accept, 1, 102);
    let out = command(&mut accept, AcceptorCommand::Resume, 0);
    assert_deliver(out, 100, 12);
    let out = poll(&mut accept, Event::Delivered);
    let connection = assert_deliver(out, 101, 10);
    // the server fills up again
    let out = poll(&mut accept, Event::Refused { connection });
    assert!(matches!(out.request, Request::Receive));
    assert!(out.effects.is_empty());
    let out = command(&mut accept, AcceptorCommand::Resume, 0);
    assert_deliver(out, 101, 10);
    let out = poll(&mut accept, Event::Delivered);
    assert_deliver(out, 102, 11);
    let out = poll(&mut accept, Event::Delivered);
    assert_register(&out, 0, true);
}

#[test]
fn every_refusal_is_reported() {
    let mut accept = started(2, false, true);
    wake(&mut accept, vec![0, 1]);
    let out = refuse(&mut accept, 0, 1);
    assert_eq!(out.effects.len(), 1);
    assert!(matches!(out.effects[0], Effect::Status(ServerStatus::NotReady)));
    let out = refuse(&mut accept, 1, 2);
    assert_eq!(out.effects.len(), 1);
    assert!(matches!(out.effects[0], Effect::Status(ServerStatus::NotReady)));
}

#[test]
fn pause_and_resume() {
    let mut accept = started(2, false, true);
    resume(&mut accept, 2);
    let out = command(&mut accept, AcceptorCommand::Pause, 0);
    assert_eq!(out.effects.len(), 3);
    assert!(matches!(out.effects[0], Effect::Status(ServerStatus::NotReady)));
    assert!(matches!(out.effects[1], Effect::Disable { key: 0 }));
    assert!(matches!(out.effects[2], Effect::Disable { key: 1 }));
    assert!(matches!(out.request, Request::Receive));
    let out = command(&mut accept, AcceptorCommand::Pause, 0);
    assert!(out.effects.is_empty());
    assert!(matches!(out.request, Request::Receive));
    let out = command(&mut accept, AcceptorCommand::Resume, 0);
    assert_eq!(out.effects.len(), 1);
    assert!(matches!(out.effects[0], Effect::Status(ServerStatus::Ready)));
    assert_register(&out, 0, true);
    let out = poll(&mut accept, Event::Registered);
    assert_register(&out, 1, true);
    poll(&mut accept, Event::Registered);
    let out = command(&mut accept, AcceptorCommand::Resume, 0);
    assert!(out.effects.is_empty());
    assert!(matches!(out.request, Request::Receive));
}

#[test]
fn pause_after_the_events() {
    let mut accept = started(1, false, false);
    resume(&mut accept, 1);
    wake(&mut accept, vec![]);
    command(&mut accept, AcceptorCommand::Pause, 0);
    let out = poll(&mut accept, Event::NoCommand);
    assert!(matches!(out.request, Request::Receive));
    let out = poll(&mut accept, Event::NoCommand);
    assert!(matches!(out.request, Request::Wait));
}

#[test]
fn unregistered_sockets_are_not_disabled() {
    let mut accept_loop = AcceptLoop::new();
    let mut accept: Accept<u32> = accept_loop.start(vec![Token(1)]).accept;
    accept.begin();
    poll(&mut accept, Event::RegisterFailed { kind: ErrorKind::Other, now: 0 });
    command(&mut accept, AcceptorCommand::Resume, 0);
    let out = command(&mut accept, AcceptorCommand::Pause, 0);
    assert!(out.effects.is_empty());
    // its rest is over, so that resuming tries it again
    let out = command(&mut accept, AcceptorCommand::Resume, 0);
    assert_register(&out, 0, false);
}

#[test]
fn stop_disables_releases_and_answers() {
    let mut accept = started(2, false, true);
    resume(&mut accept, 2);
    let (tx, rx) = oneshot::channel();
    let mut out = command(&mut accept, AcceptorCommand::Stop(tx), 0);
    assert!(matches!(out.request, Request::Finish));
    assert_eq!(out.effects.len(), 6);
    assert!(matches!(out.effects[0], Effect::Status(ServerStatus::NotReady)));
    assert!(matches!(out.effects[1], Effect::Disable { key: 0 }));
    assert!(matches!(out.effects[2], Effect::Disable { key: 1 }));
    assert!(matches!(out.effects[3], Effect::RemoveSource { key: 0 }));
    assert!(matches!(out.effects[4], Effect::RemoveSource { key: 1 }));
    match out.effects.pop() {
        Some(Effect::Answer { tx, delay }) => {
            assert_eq!(delay, 100);
            assert!(tx.send(()).is_ok());
        }
        _ => panic!("the stop is answered"),
    }
    assert!(rx.recv().is_ok());
    assert!(!accept.expects(&Event::NoCommand));
    assert!(!accept.expects(&Event::Registered));
}

#[test]
fn stop_under_back_pressure_reports_nothing() {
    let mut accept = started(1, true, true);
    let (tx, _rx) = oneshot::channel();
    let out = command(&mut accept, AcceptorCommand::Stop(tx), 0);
    assert!(matches!(out.request, Request::Finish));
    assert_eq!(out.effects.len(), 2);
    assert!(matches!(out.effects[0], Effect::RemoveSource { key: 0 }));
    assert!(matches!(out.effects[1], Effect::Answer { delay: 0, .. }));
}

#[test]
fn terminate_reports_under_back_pressure() {
    let mut accept = started(1, false, true);
    let out = command(&mut accept, AcceptorCommand::Terminate, 0);
    assert!(matches!(out.request, Request::Finish));
    assert_eq!(out.effects.len(), 2);
    assert!(matches!(out.effects[0], Effect::Status(ServerStatus::NotReady)));
    assert!(matches!(out.effects[1], Effect::RemoveSource { key: 0 }));
}

#[test]
fn lost_senders_end_the_loop() {
    let mut accept = started(1, false, false);
    resume(&mut accept, 1);
    let out = poll(&mut accept, Event::Disconnected);
    assert!(matches!(out.request, Request::Finish));
    assert_eq!(out.effects.len(), 2);
    assert!(matches!(out.effects[0], Effect::Disable { key: 0 }));
    assert!(matches!(out.effects[1], Effect::RemoveSource { key: 0 }));
}

#[test]
fn events_are_expected_in_their_phase_only() {
    let mut accept = started(1, false, false);
    assert!(accept.expects(&Event::NoCommand));
    assert!(accept.expects(&Event::Disconnected));
    assert!(!accept.expects(&Event::Registered));
    assert!(!accept.expects(&Event::Woken { keys: vec![] }));
    wake(&mut accept, vec![0]);
    assert!(accept.expects(&Event::Accepted { io: 1 }));
    assert!(accept.expects(&Event::NoConnection));
    assert!(!accept.expects(&Event::Delivered));
    poll(&mut accept, Event::Accepted { io: 1 });
    assert!(accept.expects(&Event::Delivered));
    assert!(!accept.expects(&Event::NoCommand));
}
