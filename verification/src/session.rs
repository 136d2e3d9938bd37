//! The event loop between a console and a WebSocket.
//!
//! Binary frames are forwarded to and from stdin and stdout until either the
//! input stream is closed (e.g. by escape sequence), the remote end has sent a
//! Close frame, or the underlying connection has itself terminated. Other
//! frame types, such as Text, are skipped. What each event calls for is decided
//! here; waiting for events and acting on them is up to the caller.

use vstd::prelude::*;
use vstd::string::*;

verus! {

/// Why the remote end closes the connection.
#[derive(Clone, Copy, PartialEq, Eq, Structural, Debug)]
pub enum CloseCode {
    Normal,
    Away,
    Protocol,
    Unsupported,
    Status,
    Abnormal,
    Invalid,
    Policy,
    Size,
    Extension,
    Error,
    Restart,
    Again,
    Tls,
    Reserved(u16),
    Iana(u16),
    Library(u16),
    Bad(u16),
}

impl CloseCode {
    /// The connection is closed because something went wrong.
    pub open spec fn is_failure(self) -> bool {
        ||| self == CloseCode::Abnormal
        ||| self == CloseCode::Error
        ||| self == CloseCode::Extension
        ||| self == CloseCode::Invalid
        ||| self == CloseCode::Policy
        ||| self == CloseCode::Protocol
        ||| self == CloseCode::Size
        ||| self == CloseCode::Unsupported
    }

    /// The code as it is shown to the user.
    pub open spec fn label(self) -> Seq<char> {
        match self {
            CloseCode::Normal => "Normal"@,
            CloseCode::Away => "Away"@,
            CloseCode::Protocol => "Protocol"@,
            CloseCode::Unsupported => "Unsupported"@,
            CloseCode::Status => "Status"@,
            CloseCode::Abnormal => "Abnormal"@,
            CloseCode::Invalid => "Invalid"@,
            CloseCode::Policy => "Policy"@,
            CloseCode::Size => "Size"@,
            CloseCode::Extension => "Extension"@,
            CloseCode::Error => "Error"@,
            CloseCode::Restart => "Restart"@,
            CloseCode::Again => "Again"@,
            CloseCode::Tls => "Tls"@,
            CloseCode::Reserved(n) => "Reserved("@ + decimal(n as nat) + ")"@,
            CloseCode::Iana(n) => "Iana("@ + decimal(n as nat) + ")"@,
            CloseCode::Library(n) => "Library("@ + decimal(n as nat) + ")"@,
            CloseCode::Bad(n) => "Bad("@ + decimal(n as nat) + ")"@,
        }
    }

    /// Whether the session ends in an error when the remote end gives this code.
    pub fn reports_failure(&self) -> (failure: bool)
        ensures
            failure == self.is_failure(),
            failure <==> {
                ||| self == CloseCode::Abnormal
                ||| self == CloseCode::Error
                ||| self == CloseCode::Extension
                ||| self == CloseCode::Invalid
                ||| self == CloseCode::Policy
                ||| self == CloseCode::Protocol
                ||| self == CloseCode::Size
                ||| self == CloseCode::Unsupported
            },
    {
        match self {
            CloseCode::Abnormal
            | CloseCode::Error
            | CloseCode::Extension
            | CloseCode::Invalid
            | CloseCode::Policy
            | CloseCode::Protocol
            | CloseCode::Size
            | CloseCode::Unsupported => true,
            _ => false,
        }
    }

    /// Appends the code as it is shown to the user.
    pub fn append_label(&self, text: &mut String)
        ensures
            final(text)@ == old(text)@ + self.label(),
    {
        match self {
            CloseCode::Normal => text.append("Normal"),
            CloseCode::Away => text.append("Away"),
            CloseCode::Protocol => text.append("Protocol"),
            CloseCode::Unsupported => text.append("Unsupported"),
            CloseCode::Status => text.append("Status"),
            CloseCode::Abnormal => text.append("Abnormal"),
            CloseCode::Invalid => text.append("Invalid"),
            CloseCode::Policy => text.append("Policy"),
            CloseCode::Size => text.append("Size"),
            CloseCode::Extension => text.append("Extension"),
            CloseCode::Error => text.append("Error"),
            CloseCode::Restart => text.append("Restart"),
            CloseCode::Again => text.append("Again"),
            CloseCode::Tls => text.append("Tls"),
            CloseCode::Reserved(n) => append_numbered(text, "Reserved(", *n),
            CloseCode::Iana(n) => append_numbered(text, "Iana(", *n),
            CloseCode::Library(n) => append_numbered(text, "Library(", *n),
            CloseCode::Bad(n) => append_numbered(text, "Bad(", *n),
        }
    }
}

/// `n` in decimal digits, without leading zeros.
pub open spec fn decimal(n: nat) -> Seq<char>
    decreases n,
{
    if n < 10 {
        seq![digit(n)]
    } else {
        decimal(n / 10).push(digit(n % 10))
    }
}

/// The decimal digit for `d`.
pub open spec fn digit(d: nat) -> char {
    "0123456789"@[d as int]
}

fn append_decimal(text: &mut String, n: u16)
    ensures
        final(text)@ == old(text)@ + decimal(n as nat),
    decreases n,
{
    if n >= 10 {
        append_decimal(text, n / 10);
    }
    let d: usize = (n % 10) as usize;
    proof {
        reveal_strlit("0123456789");
    }
    let digits = "0123456789";
    text.append(digits.substring_char(d, d + 1));
    assert(digits@.subrange(d as int, d + 1) =~= seq![digit((n % 10) as nat)]);
    assert(text@ =~= old(text)@ + decimal(n as nat));
}

fn append_numbered(text: &mut String, name: &str, n: u16)
    ensures
        final(text)@ == old(text)@ + (name@ + decimal(n as nat) + ")"@),
{
    text.append(name);
    append_decimal(text, n);
    text.append(")");
    assert(text@ =~= old(text)@ + (name@ + decimal(n as nat) + ")"@));
}

/// A signal on which the session ends.
#[derive(Clone, Copy, PartialEq, Eq, Structural, Debug)]
pub enum Signal {
    Hangup,
    Interrupt,
    Pipe,
    Quit,
    Terminate,
}

impl Signal {
    /// The signal's name, without the leading `SIG`.
    pub open spec fn spec_name(self) -> &'static str {
        match self {
            Signal::Hangup => "HUP",
            Signal::Interrupt => "INT",
            Signal::Pipe => "PIPE",
            Signal::Quit => "QUIT",
            Signal::Terminate => "TERM",
        }
    }

    /// The signal's name, without the leading `SIG`.
    pub fn name(&self) -> (name: &'static str)
        ensures
            name == self.spec_name(),
    {
        match self {
            Signal::Hangup => "HUP",
            Signal::Interrupt => "INT",
            Signal::Pipe => "PIPE",
            Signal::Quit => "QUIT",
            Signal::Terminate => "TERM",
        }
    }
}

/// The content of a Close frame.
pub struct CloseFrame {
    pub code: CloseCode,
    pub reason: String,
}

/// A frame from the remote end.
pub enum Message {
    Binary(Vec<u8>),
    Close(Option<CloseFrame>),
    /// Any other type, such as Text, Ping or Pong.
    Other,
}

/// Why a session ends before its time. `W` is an error of the WebSocket, `S`
/// one of the output stream.
#[derive(Debug)]
pub enum Error<W, S> {
    WebsocketError(W),
    StdoutWrite(S),
    ServerError(String),
    Signal(&'static str),
}

/// Something that a session has to react to.
pub enum Event<W, S> {
    /// The user typed something.
    Input(Vec<u8>),
    /// The input stream is closed.
    InputClosed,
    /// The remote end sent something.
    Received(Message),
    /// What the remote end sent cannot be read.
    ReceiveFailed,
    /// The connection is gone.
    ConnectionLost,
    /// A signal arrived.
    Signalled(Signal),
    /// What came of [`Action::SendBinary`].
    Sent(Result<(), W>),
    /// What came of [`Action::WriteStdout`].
    Written(Result<(), S>),
    /// What came of [`Action::SendClose`].
    CloseSent(Result<(), W>),
}

/// What a session does next.
pub enum Action<W, S> {
    /// Wait for input, a message or a signal.
    Wait,
    /// Send a Binary frame.
    SendBinary(Vec<u8>),
    /// Write to stdout, and flush.
    WriteStdout(Vec<u8>),
    /// Send a Close frame.
    SendClose,
    /// End the session.
    Return(Result<(), Error<W, S>>),
}

/// Something to tell the user.
#[derive(Clone, Copy, PartialEq, Eq, Structural, Debug)]
pub enum Notice {
    /// The remote end closed the connection, and said why.
    ClosedWith(CloseCode),
    /// The remote end closed the connection.
    Closed,
    /// The connection is gone.
    Lost,
    /// The session ends because of a signal.
    Signalled,
}

impl Notice {
    /// What is shown. The terminal is in raw mode, so each line needs both a
    /// carriage return and a line feed.
    pub open spec fn shown(self) -> Seq<char> {
        match self {
            Notice::ClosedWith(code) => "\r\nConnection closed: "@ + code.label() + "\r\n"@,
            Notice::Closed => "\r\nConnection closed.\r\n"@,
            Notice::Lost => "\r\nConnection lost.\r\n"@,
            Notice::Signalled => "\r\nExiting on signal.\r\n"@,
        }
    }

    /// What is shown.
    pub fn text(&self) -> (text: String)
        ensures
            text@ == self.shown(),
    {
        let mut text = String::new();
        match self {
            Notice::ClosedWith(code) => {
                text.append("\r\nConnection closed: ");
                code.append_label(&mut text);
                text.append("\r\n");
            },
            Notice::Closed => text.append("\r\nConnection closed.\r\n"),
            Notice::Lost => text.append("\r\nConnection lost.\r\n"),
            Notice::Signalled => text.append("\r\nExiting on signal.\r\n"),
        }
        assert(text@ =~= self.shown());
        text
    }
}

/// The reaction to an event.
pub struct Reaction<W, S> {
    /// Shown to the user first.
    pub notice: Option<Notice>,
    /// Done after that.
    pub action: Action<W, S>,
}

/// What a session is in the middle of.
#[derive(Clone, Copy, PartialEq, Eq, Structural, Debug)]
pub enum Phase {
    Waiting,
    Sending,
    Writing,
    Closing,
    Finished,
}

/// What `event` calls for.
pub open spec fn reaction<W, S>(event: Event<W, S>) -> Reaction<W, S> {
    match event {
        Event::Input(data) => Reaction { notice: None, action: Action::SendBinary(data) },
        Event::InputClosed => Reaction { notice: None, action: Action::SendClose },
        Event::Received(Message::Binary(data)) => Reaction {
            notice: None,
            action: Action::WriteStdout(data),
        },
        Event::Received(Message::Close(Some(frame))) => Reaction {
            notice: Some(Notice::ClosedWith(frame.code)),
            action: if frame.code.is_failure() {
                Action::Return(Err(Error::ServerError(frame.reason)))
            } else {
                Action::SendClose
            },
        },
        Event::Received(Message::Close(None)) => Reaction {
            notice: Some(Notice::Closed),
            action: Action::SendClose,
        },
        Event::Received(Message::Other) => Reaction { notice: None, action: Action::Wait },
        Event::ReceiveFailed => Reaction { notice: None, action: Action::Wait },
        Event::ConnectionLost => Reaction {
            notice: Some(Notice::Lost),
            action: Action::SendClose,
        },
        Event::Signalled(signal) => Reaction {
            notice: Some(Notice::Signalled),
            action: Action::Return(Err(Error::Signal(signal.spec_name()))),
        },
        Event::Sent(Ok(_)) => Reaction { notice: None, action: Action::Wait },
        Event::Sent(Err(e)) => Reaction {
            notice: None,
            action: Action::Return(Err(Error::WebsocketError(e))),
        },
        Event::Written(Ok(_)) => Reaction { notice: None, action: Action::Wait },
        Event::Written(Err(e)) => Reaction {
            notice: None,
            action: Action::Return(Err(Error::StdoutWrite(e))),
        },
        Event::CloseSent(_) => Reaction { notice: None, action: Action::Return(Ok(())) },
    }
}

/// What a session is in the middle of once `action` is chosen.
pub open spec fn phase_of<W, S>(action: Action<W, S>) -> Phase {
    match action {
        Action::Wait => Phase::Waiting,
        Action::SendBinary(_) => Phase::Sending,
        Action::WriteStdout(_) => Phase::Writing,
        Action::SendClose => Phase::Closing,
        Action::Return(_) => Phase::Finished,
    }
}

/// `event` can happen in `phase`.
pub open spec fn expected<W, S>(phase: Phase, event: Event<W, S>) -> bool {
    match event {
        Event::Sent(_) => phase == Phase::Sending,
        Event::Written(_) => phase == Phase::Writing,
        Event::CloseSent(_) => phase == Phase::Closing,
        _ => phase == Phase::Waiting,
    }
}

/// A session.
pub struct Session {
    phase: Phase,
}

impl View for Session {
    type V = Phase;

    closed spec fn view(&self) -> Phase {
        self.phase
    }
}

impl Session {
    /// A session that waits for its first event.
    pub fn new() -> (session: Self)
        ensures
            session@ == Phase::Waiting,
    {
        Session { phase: Phase::Waiting }
    }

    /// Reacts to `event`.
    pub fn on_event<W, S>(&mut self, event: Event<W, S>) -> (r: Reaction<W, S>)
        requires
            expected(old(self)@, event),
        ensures
            r == reaction(event),
            final(self)@ == phase_of(r.action),
    {
        let r = match event {
            Event::Input(data) => Reaction { notice: None, action: Action::SendBinary(data) },
            Event::InputClosed => Reaction { notice: None, action: Action::SendClose },
            Event::Received(Message::Binary(data)) => Reaction {
                notice: None,
                action: Action::WriteStdout(data),
            },
            Event::Received(Message::Close(Some(frame))) => {
                let notice = Some(Notice::ClosedWith(frame.code));
                if frame.code.reports_failure() {
                    Reaction {
                        notice,
                        action: Action::Return(Err(Error::ServerError(frame.reason))),
                    }
                } else {
                    Reaction { notice, action: Action::SendClose }
                }
            },
            Event::Received(Message::Close(None)) => Reaction {
                notice: Some(Notice::Closed),
                action: Action::SendClose,
            },
            Event::Received(Message::Other) => Reaction { notice: None, action: Action::Wait },
            Event::ReceiveFailed => Reaction { notice: None, action: Action::Wait },
            Event::ConnectionLost => Reaction {
                notice: Some(Notice::Lost),
                action: Action::SendClose,
            },
            Event::Signalled(signal) => Reaction {
                notice: Some(Notice::Signalled),
                action: Action::Return(Err(Error::Signal(signal.name()))),
            },
            Event::Sent(Ok(_)) => Reaction { notice: None, action: Action::Wait },
            Event::Sent(Err(e)) => Reaction {
                notice: None,
                action: Action::Return(Err(Error::WebsocketError(e))),
            },
            Event::Written(Ok(_)) => Reaction { notice: None, action: Action::Wait },
            Event::Written(Err(e)) => Reaction {
                notice: None,
                action: Action::Return(Err(Error::StdoutWrite(e))),
            },
            // the connection may have already been dropped at this point
            Event::CloseSent(_) => Reaction { notice: None, action: Action::Return(Ok(())) },
        };
        self.phase = match &r.action {
            Action::Wait => Phase::Waiting,
            Action::SendBinary(_) => Phase::Sending,
            Action::WriteStdout(_) => Phase::Writing,
            Action::SendClose => Phase::Closing,
            Action::Return(_) => Phase::Finished,
        };
        r
    }
}

/// What a session is in the middle of after the first `n` of `events`.
pub open spec fn phase_after<W, S>(events: Seq<Event<W, S>>, n: int) -> Phase {
    if n <= 0 {
        Phase::Waiting
    } else {
        phase_of(reaction(events[n - 1]).action)
    }
}

/// The event after the first `n` of `events` can happen there.
pub open spec fn follows<W, S>(events: Seq<Event<W, S>>, n: int) -> bool {
    expected(phase_after(events, n), events[n])
}

/// `events` is what can happen, from the beginning, in one session.
pub open spec fn is_history<W, S>(events: Seq<Event<W, S>>) -> bool {
    forall|i: int| 0 <= i < events.len() ==> #[trigger] follows(events, i)
}

/// Bytes are forwarded unchanged in both directions, and nothing else is: a
/// Binary frame is sent exactly for what the user typed, and stdout is written
/// exactly for a Binary frame received.
pub proof fn law_forwards_binary_frames<W, S>(event: Event<W, S>, data: Vec<u8>)
    ensures
        reaction(event).action == Action::<W, S>::SendBinary(data) <==> event == Event::<
            W,
            S,
        >::Input(data),
        reaction(event).action == Action::<W, S>::WriteStdout(data) <==> event == Event::<
            W,
            S,
        >::Received(Message::Binary(data)),
{
}

/// Everything that the user typed, chunk by chunk.
pub open spec fn typed<W, S>(events: Seq<Event<W, S>>) -> Seq<Vec<u8>>
    decreases events.len(),
{
    if events.len() == 0 {
        seq![]
    } else {
        match events.last() {
            Event::Input(data) => typed(events.drop_last()).push(data),
            _ => typed(events.drop_last()),
        }
    }
}

/// The content of every Binary frame that is sent.
pub open spec fn sent<W, S>(events: Seq<Event<W, S>>) -> Seq<Vec<u8>>
    decreases events.len(),
{
    if events.len() == 0 {
        seq![]
    } else {
        match reaction(events.last()).action {
            Action::SendBinary(data) => sent(events.drop_last()).push(data),
            _ => sent(events.drop_last()),
        }
    }
}

/// The content of every Binary frame that the remote end sent.
pub open spec fn received<W, S>(events: Seq<Event<W, S>>) -> Seq<Vec<u8>>
    decreases events.len(),
{
    if events.len() == 0 {
        seq![]
    } else {
        match events.last() {
            Event::Received(Message::Binary(data)) => received(events.drop_last()).push(data),
            _ => received(events.drop_last()),
        }
    }
}

/// Everything that is written to stdout.
pub open spec fn written<W, S>(events: Seq<Event<W, S>>) -> Seq<Vec<u8>>
    decreases events.len(),
{
    if events.len() == 0 {
        seq![]
    } else {
        match reaction(events.last()).action {
            Action::WriteStdout(data) => written(events.drop_last()).push(data),
            _ => written(events.drop_last()),
        }
    }
}

/// Over a whole session too, what is sent is what was typed, and what is
/// written is what was received, in the same order.
pub proof fn law_forwards_in_order<W, S>(events: Seq<Event<W, S>>)
    ensures
        sent(events) == typed(events),
        written(events) == received(events),
    decreases events.len(),
{
    if events.len() > 0 {
        law_forwards_in_order(events.drop_last());
    }
}

/// The session is closed in an orderly way exactly if the input stream is
/// closed, the remote end closed the connection without reporting a failure,
/// or the connection is gone.
pub proof fn law_closes_when_either_end_closes<W, S>(event: Event<W, S>)
    ensures
        reaction(event).action is SendClose <==> match event {
            Event::InputClosed => true,
            Event::ConnectionLost => true,
            Event::Received(Message::Close(None)) => true,
            Event::Received(Message::Close(Some(frame))) => !frame.code.is_failure(),
            _ => false,
        },
{
}

/// The session ends in an error exactly if a signal arrives, the remote end
/// reports a failure, or forwarding fails; and it is that error.
pub proof fn law_errors<W, S>(event: Event<W, S>)
    ensures
        reaction(event).action matches Action::Return(Err(e)) ==> match e {
            Error::Signal(name) => event matches Event::Signalled(s) && name == s.spec_name(),
            Error::ServerError(reason) => event matches Event::Received(
                Message::Close(Some(frame)),
            ) && frame.code.is_failure() && reason == frame.reason,
            Error::WebsocketError(w) => event == Event::<W, S>::Sent(Err(w)),
            Error::StdoutWrite(s) => event == Event::<W, S>::Written(Err(s)),
        },
        (match event {
            Event::Signalled(_) => true,
            Event::Received(Message::Close(Some(frame))) => frame.code.is_failure(),
            Event::Sent(Err(_)) => true,
            Event::Written(Err(_)) => true,
            _ => false,
        }) ==> reaction(event).action matches Action::Return(Err(_)),
{
}

/// When the remote end closes the connection and says why, the user is told the
/// code. The session ends in an error, with the reason given, exactly if the
/// code is one of eight; for every other code, whatever its number, the
/// connection is closed in an orderly way.
pub proof fn law_close_codes<W, S>(frame: CloseFrame)
    ensures
        ({
            let r = reaction(Event::<W, S>::Received(Message::Close(Some(frame))));
            let failure = {
                ||| frame.code is Abnormal
                ||| frame.code is Error
                ||| frame.code is Extension
                ||| frame.code is Invalid
                ||| frame.code is Policy
                ||| frame.code is Protocol
                ||| frame.code is Size
                ||| frame.code is Unsupported
            };
            &&& r.notice == Some(Notice::ClosedWith(frame.code))
            &&& failure <==> r.action == Action::<W, S>::Return(
                Err(Error::ServerError(frame.reason)),
            )
            &&& !failure <==> r.action is SendClose
        }),
        ({
            ||| frame.code is Reserved
            ||| frame.code is Iana
            ||| frame.code is Library
            ||| frame.code is Bad
        }) ==> reaction(Event::<W, S>::Received(Message::Close(Some(frame)))).action is SendClose,
{
}

/// Each event that is not a Close frame with a code: what it calls for, and
/// what the user is told.
pub proof fn law_other_events<W, S>(event: Event<W, S>)
    ensures
        reaction(event).action is Wait <==> {
            ||| event is ReceiveFailed
            ||| event matches Event::Received(Message::Other)
            ||| event matches Event::Sent(Ok(_))
            ||| event matches Event::Written(Ok(_))
        },
        reaction(event).action == Action::<W, S>::Return(Ok(())) <==> event is CloseSent,
        event matches Event::Sent(Err(e)) ==> reaction(event).action == Action::<W, S>::Return(
            Err(Error::WebsocketError(e)),
        ),
        event matches Event::Written(Err(e)) ==> reaction(event).action == Action::<W, S>::Return(
            Err(Error::StdoutWrite(e)),
        ),
        event is InputClosed || event is ConnectionLost ==> reaction(event).action is SendClose,
        event matches Event::Received(Message::Close(None)) ==> reaction(event).action is SendClose,
        reaction(event).notice is None <==> {
            ||| event is Input
            ||| event is InputClosed
            ||| event is ReceiveFailed
            ||| event is Sent
            ||| event is Written
            ||| event is CloseSent
            ||| event matches Event::Received(Message::Binary(_))
            ||| event matches Event::Received(Message::Other)
        },
        reaction(event).notice == Some(Notice::Closed) <==> event matches Event::Received(
            Message::Close(None),
        ),
        reaction(event).notice == Some(Notice::Lost) <==> event is ConnectionLost,
        reaction(event).notice == Some(Notice::Signalled) <==> event is Signalled,
{
}

/// A session that is ended by a signal names it, without the leading `SIG`.
pub proof fn law_signal_is_named<W, S>(signal: Signal)
    ensures
        ({
            &&& reaction(Event::<W, S>::Signalled(signal)).action matches Action::Return(Err(e))
            &&& e matches Error::Signal(name)
            &&& name == signal.spec_name()
            &&& signal is Hangup ==> name@ == "HUP"@
            &&& signal is Interrupt ==> name@ == "INT"@
            &&& signal is Pipe ==> name@ == "PIPE"@
            &&& signal is Quit ==> name@ == "QUIT"@
            &&& signal is Terminate ==> name@ == "TERM"@
        }),
{
}

/// What can happen next: as long as there is nothing to do, anything from
/// outside; after an action, what came of it and nothing else; after the end,
/// nothing. A new session has nothing to do.
pub proof fn law_what_can_follow<W, S>(action: Action<W, S>, event: Event<W, S>)
    ensures
        action is Wait ==> (expected(phase_of(action), event) <==> !(event is Sent || event
            is Written || event is CloseSent)),
        action is SendBinary ==> (expected(phase_of(action), event) <==> event is Sent),
        action is WriteStdout ==> (expected(phase_of(action), event) <==> event is Written),
        action is SendClose ==> (expected(phase_of(action), event) <==> event is CloseSent),
        action is Return ==> !expected(phase_of(action), event),
        expected(Phase::Waiting, event) <==> !(event is Sent || event is Written || event
            is CloseSent),
{
}

/// The number that decimal digits stand for.
pub open spec fn number_read(s: Seq<char>) -> int
    decreases s.len(),
{
    if s.len() == 0 {
        0
    } else {
        10 * number_read(s.drop_last()) + (s.last() as int - '0' as int)
    }
}

/// A number is shown in decimal digits that stand for it, without leading
/// zeros.
pub proof fn law_numbers_read_back(n: nat)
    ensures
        number_read(decimal(n)) == n,
        decimal(n).len() > 0,
        forall|i: int| 0 <= i < decimal(n).len() ==> '0' <= #[trigger] decimal(n)[i] <= '9',
        n > 0 ==> decimal(n)[0] != '0',
        n == 0 ==> decimal(n).len() == 1,
    decreases n,
{
    let d = n % 10;
    reveal_strlit("0123456789");
    assert(digit(d) as int == '0' as int + d) by {
        assert(d == 0 || d == 1 || d == 2 || d == 3 || d == 4 || d == 5 || d == 6 || d == 7 || d
            == 8 || d == 9);
    }
    if n < 10 {
        assert(decimal(n).drop_last() =~= seq![]);
        assert(number_read(decimal(n).drop_last()) == 0);
    } else {
        law_numbers_read_back(n / 10);
        assert(decimal(n).drop_last() =~= decimal(n / 10));
        assert(decimal(n)[0] == decimal(n / 10)[0]);
    }
}

/// Each close code is shown by its name, followed by its number in brackets
/// where it has one.
pub proof fn law_labels(code: CloseCode)
    ensures
        code is Normal ==> code.label() == "Normal"@,
        code is Away ==> code.label() == "Away"@,
        code is Protocol ==> code.label() == "Protocol"@,
        code is Unsupported ==> code.label() == "Unsupported"@,
        code is Status ==> code.label() == "Status"@,
        code is Abnormal ==> code.label() == "Abnormal"@,
        code is Invalid ==> code.label() == "Invalid"@,
        code is Policy ==> code.label() == "Policy"@,
        code is Size ==> code.label() == "Size"@,
        code is Extension ==> code.label() == "Extension"@,
        code is Error ==> code.label() == "Error"@,
        code is Restart ==> code.label() == "Restart"@,
        code is Again ==> code.label() == "Again"@,
        code is Tls ==> code.label() == "Tls"@,
        code matches CloseCode::Reserved(n) ==> code.label() == "Reserved("@ + decimal(n as nat)
            + ")"@,
        code matches CloseCode::Iana(n) ==> code.label() == "Iana("@ + decimal(n as nat) + ")"@,
        code matches CloseCode::Library(n) ==> code.label() == "Library("@ + decimal(n as nat)
            + ")"@,
        code matches CloseCode::Bad(n) ==> code.label() == "Bad("@ + decimal(n as nat) + ")"@,
{
}

/// Every notice stands on a line of its own, in raw mode too: it begins and
/// ends with a carriage return and a line feed. In between it says what
/// happened, with the close code where there is one.
pub proof fn law_notices_are_lines(notice: Notice)
    ensures
        notice.shown().len() >= 4,
        notice.shown().take(2) == seq!['\r', '\n'],
        notice.shown().skip(notice.shown().len() - 2) == seq!['\r', '\n'],
        ({
            let line = notice.shown().subrange(2, notice.shown().len() - 2);
            &&& notice matches Notice::ClosedWith(code) ==> line == "Connection closed: "@
                + code.label()
            &&& notice is Closed ==> line == "Connection closed."@
            &&& notice is Lost ==> line == "Connection lost."@
            &&& notice is Signalled ==> line == "Exiting on signal."@
        }),
{
    reveal_strlit("\r\n");
    reveal_strlit("\r\nConnection closed: ");
    reveal_strlit("\r\nConnection closed.\r\n");
    reveal_strlit("\r\nConnection lost.\r\n");
    reveal_strlit("\r\nExiting on signal.\r\n");
    reveal_strlit("Connection closed: ");
    reveal_strlit("Connection closed.");
    reveal_strlit("Connection lost.");
    reveal_strlit("Exiting on signal.");
    let shown = notice.shown();
    assert(shown.take(2) =~= seq!['\r', '\n']);
    assert(shown.skip(shown.len() - 2) =~= seq!['\r', '\n']);
    let line = shown.subrange(2, shown.len() - 2);
    match notice {
        Notice::ClosedWith(code) => {
            assert(line =~= "Connection closed: "@ + code.label());
        },
        Notice::Closed => {
            assert(line =~= "Connection closed."@);
        },
        Notice::Lost => {
            assert(line =~= "Connection lost."@);
        },
        Notice::Signalled => {
            assert(line =~= "Exiting on signal."@);
        },
    }
}

/// A session that ends well has sent a Close frame right before; one that ends
/// in an error has sent none. Either way nothing happens afterwards.
pub proof fn law_close_frame_iff_orderly_end<W, S>(events: Seq<Event<W, S>>, n: int)
    requires
        is_history(events),
        0 <= n < events.len(),
        reaction(events[n]).action is Return,
    ensures
        n == events.len() - 1,
        reaction(events[n]).action->Return_0 is Ok <==> n > 0 && reaction(
            events[n - 1],
        ).action is SendClose,
        reaction(events[n]).action->Return_0 is Err ==> forall|i: int|
            0 <= i < events.len() ==> !(reaction(#[trigger] events[i]).action is SendClose),
{
    if n + 1 < events.len() {
        assert(follows(events, n + 1));
    }
    assert(follows(events, n));
    assert forall|i: int|
        0 <= i < events.len() && reaction(#[trigger] events[i]).action is SendClose implies reaction(
        events[n],
    ).action->Return_0 is Ok by {
        if i < n {
            assert(follows(events, i + 1));
            if i + 1 < n {
                assert(follows(events, i + 2));
            }
        }
    }
}

} // verus!
