//! Raw mode on a terminal that is controlled through `tcgetattr` and
//! `tcsetattr`.
//!
//! `T` is the type of terminal attributes, `E` that of system errors.

use vstd::prelude::*;

verus! {

/// What both calls return when they fail.
pub const CALL_FAILED: i32 = -1;

/// Why the attributes of a terminal cannot be read or changed.
#[derive(Debug)]
pub enum Error<E> {
    /// `tcgetattr` failed.
    TcGetAttr(E),
    /// `tcsetattr` failed; its optional action is given too.
    TcSetAttr(E, &'static str),
}

/// When a change of attributes takes effect.
#[derive(Clone, Copy, PartialEq, Eq, Structural, Debug)]
pub enum When {
    /// After all output is written, and with unread input thrown away.
    Flush,
    /// After all output is written.
    Drain,
}

impl When {
    /// The name of the constant to be handed to `tcsetattr`.
    pub open spec fn spec_name(self) -> &'static str {
        match self {
            When::Flush => "TCSAFLUSH",
            When::Drain => "TCSADRAIN",
        }
    }

    /// The name of the constant to be handed to `tcsetattr`.
    pub fn name(&self) -> (name: &'static str)
        ensures
            name == self.spec_name(),
    {
        match self {
            When::Flush => "TCSAFLUSH",
            When::Drain => "TCSADRAIN",
        }
    }
}

/// A call of `tcsetattr` to be made.
pub struct SetRequest<T> {
    pub fd: i32,
    pub when: When,
    pub termios: T,
}

/// Remembers the attributes that a terminal had before it was put into raw
/// mode.
pub struct RawModeGuard<T> {
    fd: i32,
    termios: T,
}

/// What came of the attempt to enter raw mode.
pub enum Activation<T, E> {
    /// The terminal is in raw mode.
    Active(RawModeGuard<T>),
    /// It is not; the guard is to be used all the same.
    Failed(RawModeGuard<T>, Error<E>),
}

impl<T: Copy> RawModeGuard<T> {
    /// The terminal.
    pub closed spec fn spec_fd(&self) -> i32 {
        self.fd
    }

    /// The attributes it had.
    pub closed spec fn spec_saved(&self) -> T {
        self.termios
    }

    /// Entering raw mode with the attributes `raw`.
    pub open spec fn spec_enter(&self, raw: T) -> SetRequest<T> {
        SetRequest { fd: self.spec_fd(), when: When::Flush, termios: raw }
    }

    /// Going back to the attributes that the terminal had.
    pub open spec fn spec_restore(&self) -> SetRequest<T> {
        SetRequest { fd: self.spec_fd(), when: When::Drain, termios: self.spec_saved() }
    }

    /// After `tcgetattr` on the terminal whose output is `fd`.
    pub fn attach<E>(fd: i32, ret: i32, termios: T, os_error: E) -> (guard: Result<Self, Error<E>>)
        ensures
            guard is Err <==> ret == CALL_FAILED,
            guard is Err <==> ret == -1,
            guard matches Ok(g) ==> g.spec_fd() == fd && g.spec_saved() == termios,
            guard matches Err(e) ==> e == Error::TcGetAttr(os_error),
    {
        if ret == CALL_FAILED {
            return Err(Error::TcGetAttr(os_error));
        }
        Ok(RawModeGuard { fd, termios })
    }

    /// The attributes that the terminal had.
    pub fn saved(&self) -> (termios: T)
        ensures
            termios == self.spec_saved(),
    {
        self.termios
    }

    /// The call that enters raw mode, `raw` being what `cfmakeraw` makes of
    /// the saved attributes.
    pub fn enter(&self, raw: T) -> (request: SetRequest<T>)
        ensures
            request == self.spec_enter(raw),
            request.fd == self.spec_fd(),
            request.when == When::Flush,
            request.termios == raw,
    {
        SetRequest { fd: self.fd, when: When::Flush, termios: raw }
    }

    /// After the call that enters raw mode.
    pub fn after_enter<E>(self, ret: i32, os_error: E) -> (activation: Activation<T, E>)
        ensures
            activation == if ret == CALL_FAILED {
                Activation::Failed(self, Error::TcSetAttr(os_error, When::Flush.spec_name()))
            } else {
                Activation::Active(self)
            },
            match activation {
                Activation::Active(guard) => ret != -1 && guard == self,
                Activation::Failed(guard, e) => {
                    &&& ret == -1
                    &&& guard == self
                    &&& e matches Error::TcSetAttr(cause, when)
                    &&& cause == os_error
                    &&& when@ == "TCSAFLUSH"@
                },
            },
    {
        if ret == CALL_FAILED {
            Activation::Failed(self, Error::TcSetAttr(os_error, When::Flush.name()))
        } else {
            Activation::Active(self)
        }
    }

    /// The call that leaves raw mode.
    pub fn restore(&self) -> (request: SetRequest<T>)
        ensures
            request == self.spec_restore(),
            request.fd == self.spec_fd(),
            request.when == When::Drain,
            request.termios == self.spec_saved(),
    {
        SetRequest { fd: self.fd, when: When::Drain, termios: self.termios }
    }

    /// After the call that leaves raw mode.
    pub fn after_restore<E>(&self, ret: i32, os_error: E) -> (restored: Result<(), Error<E>>)
        ensures
            restored is Err <==> ret == CALL_FAILED,
            restored matches Err(e) ==> e == Error::TcSetAttr(os_error, When::Drain.spec_name()),
            restored is Err <==> ret == -1,
            restored matches Err(Error::TcSetAttr(_, when)) ==> when@ == "TCSADRAIN"@,
    {
        if ret == CALL_FAILED {
            Err(Error::TcSetAttr(os_error, When::Drain.name()))
        } else {
            Ok(())
        }
    }
}

/// The attributes of all terminals after a successful call of `tcsetattr`.
pub open spec fn after_call<T>(terminals: Map<i32, T>, request: SetRequest<T>) -> Map<i32, T> {
    terminals.insert(request.fd, request.termios)
}

/// Entering raw mode gives the guard's terminal the raw attributes, whichever
/// terminal it is; leaving it gives the terminal the saved ones. No other
/// terminal changes. Input from before raw mode is thrown away; input from
/// before its end is kept.
pub proof fn law_calls_change_the_guarded_terminal<T: Copy>(
    terminals: Map<i32, T>,
    guard: RawModeGuard<T>,
    raw: T,
    other: i32,
)
    ensures
        after_call(terminals, guard.spec_enter(raw))[guard.spec_fd()] == raw,
        after_call(terminals, guard.spec_restore())[guard.spec_fd()] == guard.spec_saved(),
        other != guard.spec_fd() && terminals.dom().contains(other) ==> {
            &&& after_call(terminals, guard.spec_enter(raw))[other] == terminals[other]
            &&& after_call(terminals, guard.spec_restore())[other] == terminals[other]
        },
        guard.spec_enter(raw).fd == guard.spec_fd(),
        guard.spec_enter(raw).termios == raw,
        guard.spec_enter(raw).when == When::Flush,
        guard.spec_restore().fd == guard.spec_fd(),
        guard.spec_restore().termios == guard.spec_saved(),
        guard.spec_restore().when == When::Drain,
        When::Flush.spec_name()@ == "TCSAFLUSH"@,
        When::Drain.spec_name()@ == "TCSADRAIN"@,
{
}

/// Leaving raw mode restores the previous state: a terminal has the attributes
/// that it had when the guard was made, whatever was set in between.
pub proof fn law_restore_undoes_raw_mode<T: Copy>(
    terminals: Map<i32, T>,
    guard: RawModeGuard<T>,
    raw: T,
)
    requires
        terminals.contains_pair(guard.spec_fd(), guard.spec_saved()),
    ensures
        after_call(after_call(terminals, guard.spec_enter(raw)), guard.spec_restore())
            == terminals,
{
    assert(after_call(after_call(terminals, guard.spec_enter(raw)), guard.spec_restore())
        =~= terminals);
}

} // verus!
