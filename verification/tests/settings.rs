use ntex_accept::notify::{SendAction, SendEvent};
use ntex_accept::protocol::{Effect, Event, Request, Token};
use ntex_accept::{AcceptLoop, AcceptorCommand};

#[test]
fn labels_of_commands() {
    let (tx, _rx) = oneshot::channel();
    assert_eq!(AcceptorCommand::Stop(tx).label(), "Stop");
    assert_eq!(AcceptorCommand::Terminate.label(), "Terminate");
    assert_eq!(AcceptorCommand::Pause.label(), "Pause");
    assert_eq!(AcceptorCommand::Resume.label(), "Resume");
    assert_eq!(AcceptorCommand::Timer.label(), "Timer");
}

#[test]
fn default_name() {
    let mut accept_loop = AcceptLoop::default();
    assert_eq!(accept_loop.notify().name(), "ntex:accept");
    assert!(!accept_loop.is_started());
    assert_eq!(accept_loop.start::<u32>(vec![]).name, "ntex:accept");
    assert!(accept_loop.is_started());
}

#[test]
fn server_name() {
    let mut accept_loop = AcceptLoop::new();
    accept_loop.name("web");
    assert_eq!(accept_loop.notify().name(), "web:accept");
    accept_loop.name("");
    assert_eq!(accept_loop.notify().name(), ":accept");
    accept_loop.name("mail");
    assert_eq!(accept_loop.notify().name(), "mail:accept");
    assert_eq!(accept_loop.start::<u32>(vec![]).name, "mail:accept");
}

#[test]
fn commands_are_numbered() {
    let mut accept_loop = AcceptLoop::new();
    let first = accept_loop.notify().send(AcceptorCommand::Pause);
    assert_eq!(first.seq, 1);
    assert_eq!(first.label, "Pause");
    assert_eq!(first.name, "ntex:accept");
    assert!(matches!(first.command, AcceptorCommand::Pause));
    accept_loop.name("web");
    let second = accept_loop.notify().send(AcceptorCommand::Terminate);
    assert_eq!(second.seq, 2);
    assert_eq!(second.label, "Terminate");
    assert_eq!(second.name, "web:accept");
    assert!(matches!(second.command, AcceptorCommand::Terminate));
}

#[test]
fn poller_is_woken_for_queued_commands_only() {
    assert_eq!(SendEvent::Queued.next(), SendAction::Wake);
    assert_eq!(SendEvent::Closed.next(), SendAction::Done);
    assert_eq!(SendEvent::Woken.next(), SendAction::Done);
    assert_eq!(SendEvent::WakeFailed.next(), SendAction::Done);
}

#[test]
fn start_is_received() {
    let mut accept_loop = AcceptLoop::new();
    let mut start = accept_loop.start::<u32>(vec![]);
    let mut out = start.accept.begin();
    assert!(matches!(out.request, Request::Receive));
    assert_eq!(out.effects.len(), 1);
    assert!(start.started.try_recv().is_err());
    match out.effects.pop() {
        Some(Effect::Answer { tx, delay }) => {
            assert_eq!(delay, 25);
            assert!(tx.send(()).is_ok());
        }
        _ => panic!("the start is reported"),
    }
    assert!(start.started.recv().is_ok());
}

#[test]
fn start_takes_tokens() {
    let mut accept_loop = AcceptLoop::new();
    let mut start = accept_loop.start::<u32>(vec![Token(4), Token(2)]);
    let out = start.accept.begin();
    assert!(matches!(out.request, Request::Register { key: 0, update: false }));
    assert!(out.effects.is_empty());
}

#[test]
fn sends_number_from_one_on() {
    let mut accept_loop = AcceptLoop::new();
    for n in 1..=100u64 {
        assert_eq!(accept_loop.notify().send(AcceptorCommand::Timer).seq, n);
    }
    assert_eq!(accept_loop.notify().name(), "ntex:accept");
    assert!(!accept_loop.is_started());
}

#[test]
fn start_is_not_received_before_every_socket_was_tried() {
    let mut accept_loop = AcceptLoop::new();
    let mut start = accept_loop.start::<u32>(vec![Token(0), Token(1)]);
    let out = start.accept.begin();
    assert!(matches!(out.request, Request::Register { key: 0, .. }));
    assert!(out.effects.is_empty());
    let out = start.accept.poll(Event::Registered);
    assert!(matches!(out.request, Request::Register { key: 1, .. }));
    assert!(out.effects.is_empty());
    assert!(matches!(start.started.try_recv(), Err(oneshot::TryRecvError::Empty)));
    let mut out = start.accept.poll(Event::Registered);
    match out.effects.pop() {
        Some(Effect::Answer { tx, .. }) => assert!(tx.send(()).is_ok()),
        _ => panic!("the start is reported"),
    }
    assert!(start.started.recv().is_ok());
}
