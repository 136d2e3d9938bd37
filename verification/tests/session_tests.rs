use thouart::input::EscapeSequence;
use thouart::relay::{RelayAction, StdinRelay};
use thouart::session::{
    Action, CloseCode, CloseFrame, Error, Event, Message, Notice, Session, Signal,
};
use tokio_tungstenite::tungstenite::protocol::frame::coding::CloseCode as WireCode;

type SendError = u8;
type WriteError = u16;

fn first(event: Event<SendError, WriteError>) -> (Option<Notice>, Action<SendError, WriteError>) {
    let r = Session::new().on_event(event);
    (r.notice, r.action)
}

fn typed(relay: &mut StdinRelay, bytes: &[u8]) -> RelayAction {
    assert!(relay.accepts(bytes));
    relay.after_received(Some(bytes.to_vec()))
}

#[test]
fn test_websocket_loop() {
    let escape = match EscapeSequence::new(vec![1, 2, 3], 1) {
        Ok(escape) => escape,
        Err(_) => panic!(),
    };
    let mut relay = StdinRelay::new(Some(escape));
    let mut session = Session::new();

    match session
        .on_event::<SendError, WriteError>(Event::Received(Message::Binary(vec![
            1, 2, 3, 4, 5, 6,
        ])))
        .action
    {
        Action::WriteStdout(read_buf) => assert_eq!(read_buf, [1, 2, 3, 4, 5, 6]),
        _ => panic!(),
    }
    let r = session.on_event::<SendError, WriteError>(Event::Written(Ok(())));
    assert!(matches!(r.action, Action::Wait));

    // EscapeSequence is [1, 2, 3] with prefix_length 1, so only the first
    // [0, 1] should be sent through so far.
    match typed(&mut relay, &[0, 1, 2]) {
        RelayAction::Send(data) => {
            match session.on_event::<SendError, WriteError>(Event::Input(data)).action {
                Action::SendBinary(msg) => assert_eq!(msg, vec![0, 1]),
                _ => panic!(),
            }
        }
        _ => panic!(),
    }
    assert!(matches!(relay.after_sent(true), RelayAction::Receive));
    let r = session.on_event::<SendError, WriteError>(Event::Sent(Ok(())));
    assert!(matches!(r.action, Action::Wait));

    // this isn't 3, so this should bail from the EscapeSequence and send
    // the previously-witheld 2 now we know it's not part of an escape.
    match typed(&mut relay, &[4, 5]) {
        RelayAction::Send(data) => {
            match session.on_event::<SendError, WriteError>(Event::Input(data)).action {
                Action::SendBinary(msg) => assert_eq!(msg, vec![2, 4, 5]),
                _ => panic!(),
            }
        }
        _ => panic!(),
    }
    assert!(matches!(relay.after_sent(true), RelayAction::Receive));
    session.on_event::<SendError, WriteError>(Event::Sent(Ok(())));

    // this should trigger EscapeSequence and send a Close frame.
    match typed(&mut relay, &[0, 1, 2, 3, 4]) {
        RelayAction::Send(data) => {
            match session.on_event::<SendError, WriteError>(Event::Input(data)).action {
                Action::SendBinary(msg) => assert_eq!(msg, vec![0, 1]),
                _ => panic!(),
            }
        }
        _ => panic!(),
    }
    assert!(matches!(relay.after_sent(true), RelayAction::Stop));
    session.on_event::<SendError, WriteError>(Event::Sent(Ok(())));
    let r = session.on_event::<SendError, WriteError>(Event::InputClosed);
    assert!(r.notice.is_none());
    assert!(matches!(r.action, Action::SendClose));

    // ...and end the event loop.
    let r = session.on_event::<SendError, WriteError>(Event::CloseSent(Ok(())));
    assert!(matches!(r.action, Action::Return(Ok(()))));
}

#[test]
fn failed_close_frame_is_no_error() {
    let mut session = Session::new();
    session.on_event::<SendError, WriteError>(Event::InputClosed);
    let r = session.on_event::<SendError, WriteError>(Event::CloseSent(Err(9)));
    assert!(matches!(r.action, Action::Return(Ok(()))));
}

#[test]
fn forwarding_errors_are_handed_out() {
    let mut session = Session::new();
    session.on_event::<SendError, WriteError>(Event::Input(vec![1]));
    let r = session.on_event::<SendError, WriteError>(Event::Sent(Err(9)));
    assert!(matches!(r.action, Action::Return(Err(Error::WebsocketError(9)))));

    let mut session = Session::new();
    session.on_event::<SendError, WriteError>(Event::Received(Message::Binary(vec![1])));
    let r = session.on_event::<SendError, WriteError>(Event::Written(Err(8)));
    assert!(matches!(r.action, Action::Return(Err(Error::StdoutWrite(8)))));
}

#[test]
fn other_frames_are_skipped() {
    for event in [Event::Received(Message::Other), Event::ReceiveFailed] {
        let (notice, action) = first(event);
        assert!(notice.is_none());
        assert!(matches!(action, Action::Wait));
    }
}

#[test]
fn connection_ends() {
    let (notice, action) = first(Event::ConnectionLost);
    assert_eq!(notice.unwrap().text(), "\r\nConnection lost.\r\n");
    assert!(matches!(action, Action::SendClose));

    let (notice, action) = first(Event::Received(Message::Close(None)));
    assert_eq!(notice.unwrap().text(), "\r\nConnection closed.\r\n");
    assert!(matches!(action, Action::SendClose));
}

#[test]
fn signals() {
    for (signal, name) in [
        (Signal::Hangup, "HUP"),
        (Signal::Interrupt, "INT"),
        (Signal::Pipe, "PIPE"),
        (Signal::Quit, "QUIT"),
        (Signal::Terminate, "TERM"),
    ] {
        let (notice, action) = first(Event::Signalled(signal));
        assert_eq!(notice.unwrap().text(), "\r\nExiting on signal.\r\n");
        match action {
            Action::Return(Err(Error::Signal(given))) => assert_eq!(given, name),
            _ => panic!(),
        }
    }
}

#[test]
fn close_codes() {
    let codes = [
        (CloseCode::Normal, WireCode::Normal, false),
        (CloseCode::Away, WireCode::Away, false),
        (CloseCode::Protocol, WireCode::Protocol, true),
        (CloseCode::Unsupported, WireCode::Unsupported, true),
        (CloseCode::Status, WireCode::Status, false),
        (CloseCode::Abnormal, WireCode::Abnormal, true),
        (CloseCode::Invalid, WireCode::Invalid, true),
        (CloseCode::Policy, WireCode::Policy, true),
        (CloseCode::Size, WireCode::Size, true),
        (CloseCode::Extension, WireCode::Extension, true),
        (CloseCode::Error, WireCode::Error, true),
        (CloseCode::Restart, WireCode::Restart, false),
        (CloseCode::Again, WireCode::Again, false),
        (CloseCode::Tls, WireCode::Tls, false),
        (CloseCode::Reserved(1016), WireCode::Reserved(1016), false),
        (CloseCode::Iana(3000), WireCode::Iana(3000), false),
        (CloseCode::Library(4999), WireCode::Library(4999), false),
        (CloseCode::Bad(0), WireCode::Bad(0), false),
        (CloseCode::Bad(65535), WireCode::Bad(65535), false),
    ];
    for (code, wire, failure) in codes {
        let reason = "because".to_string();
        let (notice, action) = first(Event::Received(Message::Close(Some(CloseFrame {
            code,
            reason,
        }))));
        assert_eq!(
            notice.unwrap().text(),
            format!("\r\nConnection closed: {:?}\r\n", wire)
        );
        match action {
            Action::Return(Err(Error::ServerError(reason))) => {
                assert!(failure);
                assert_eq!(reason, "because");
            }
            Action::SendClose => assert!(!failure),
            _ => panic!(),
        }
    }
    assert_eq!(
        Notice::ClosedWith(CloseCode::Reserved(2048)).text(),
        "\r\nConnection closed: Reserved(2048)\r\n"
    );
}
