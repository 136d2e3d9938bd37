//! Raw mode on a console that is controlled through `GetConsoleMode` and
//! `SetConsoleMode`.
//!
//! `E` is the type of system errors. The modes have the names and values that
//! they have in the Windows API.

use vstd::prelude::*;

verus! {

/// What both calls return when they fail.
pub const CALL_FAILED: i32 = 0;

/// Output: interpret virtual terminal sequences.
pub const ENABLE_VIRTUAL_TERMINAL_PROCESSING: u32 = 0x0004;

/// Output: do not turn a line feed into a new line.
pub const DISABLE_NEWLINE_AUTO_RETURN: u32 = 0x0008;

/// Input: let the system deal with Ctrl-C.
pub const ENABLE_PROCESSED_INPUT: u32 = 0x0001;

/// Input: wait for a whole line.
pub const ENABLE_LINE_INPUT: u32 = 0x0002;

/// Input: echo what is typed.
pub const ENABLE_ECHO_INPUT: u32 = 0x0004;

/// Input: send virtual terminal sequences.
pub const ENABLE_VIRTUAL_TERMINAL_INPUT: u32 = 0x0200;

/// Why the mode of a console cannot be read or changed.
#[derive(Debug)]
pub enum Error<E> {
    /// `GetConsoleMode` failed.
    GetConsoleMode(E),
    /// `SetConsoleMode` failed.
    SetConsoleMode(E),
}

/// After `GetConsoleMode`: the mode, unless the call failed.
pub fn get_mode<E>(ret: i32, curr_mode: u32, os_error: E) -> (mode: Result<u32, Error<E>>)
    ensures
        mode == if ret == CALL_FAILED {
            Err::<u32, Error<E>>(Error::GetConsoleMode(os_error))
        } else {
            Ok(curr_mode)
        },
        mode is Err <==> ret == 0,
{
    if ret == CALL_FAILED {
        return Err(Error::GetConsoleMode(os_error));
    }
    Ok(curr_mode)
}

/// One of the two ends of a console.
#[derive(Clone, Copy, PartialEq, Eq, Structural, Debug)]
pub enum Side {
    Input,
    Output,
}

/// A call to be made.
#[derive(Clone, Copy, PartialEq, Eq, Structural, Debug)]
pub enum Request {
    /// `GetConsoleMode`.
    GetMode(Side),
    /// `SetConsoleMode`.
    SetMode(Side, u32),
}

/// Remembers the modes that a console had before it was put into raw mode.
#[derive(PartialEq, Eq, Structural, Debug)]
pub struct RawModeGuard {
    pub in_mode: u32,
    pub out_mode: u32,
}

/// The output mode to be used.
pub open spec fn spec_vt_out_mode(out_mode: u32) -> u32 {
    out_mode | ENABLE_VIRTUAL_TERMINAL_PROCESSING | DISABLE_NEWLINE_AUTO_RETURN
}

/// The output mode to be used where newline auto-return cannot be disabled.
pub open spec fn spec_just_vt_mode(out_mode: u32) -> u32 {
    out_mode | ENABLE_VIRTUAL_TERMINAL_PROCESSING
}

/// The input mode to be used.
pub open spec fn spec_vt_in_mode(in_mode: u32) -> u32 {
    (in_mode | ENABLE_VIRTUAL_TERMINAL_INPUT) & !(ENABLE_LINE_INPUT | ENABLE_PROCESSED_INPUT
        | ENABLE_ECHO_INPUT)
}

/// How far the console is on its way into raw mode.
#[derive(PartialEq, Eq, Structural, Debug)]
pub enum Setup {
    /// The input mode is to be read.
    ReadInput,
    /// The output mode is to be read.
    ReadOutput(u32),
    /// The output mode is to be set.
    SetOutput(RawModeGuard),
    /// That failed, perhaps only because newline auto-return cannot be
    /// disabled; the output mode is to be set without.
    SetOutputJustVt(RawModeGuard),
    /// The input mode is to be set.
    SetInput(RawModeGuard),
}

/// What comes after a call.
pub enum Step<E> {
    /// The next call.
    Next(Setup),
    /// The console is in raw mode.
    Ready(RawModeGuard),
    /// It is not. If there is a guard, it is to be used all the same.
    Failed(Option<RawModeGuard>, Error<E>),
}

impl Setup {
    /// The call to be made.
    pub open spec fn spec_request(&self) -> Request {
        match self {
            Setup::ReadInput => Request::GetMode(Side::Input),
            Setup::ReadOutput(_) => Request::GetMode(Side::Output),
            Setup::SetOutput(guard) => Request::SetMode(
                Side::Output,
                spec_vt_out_mode(guard.out_mode),
            ),
            Setup::SetOutputJustVt(guard) => Request::SetMode(
                Side::Output,
                spec_just_vt_mode(guard.out_mode),
            ),
            Setup::SetInput(guard) => Request::SetMode(Side::Input, spec_vt_in_mode(guard.in_mode)),
        }
    }

    /// What comes after that call.
    pub open spec fn spec_after<E>(self, ret: i32, mode: u32, os_error: E) -> Step<E> {
        if ret == CALL_FAILED {
            match self {
                Setup::ReadInput => Step::Failed(None, Error::GetConsoleMode(os_error)),
                Setup::ReadOutput(_) => Step::Failed(None, Error::GetConsoleMode(os_error)),
                Setup::SetOutput(guard) => Step::Next(Setup::SetOutputJustVt(guard)),
                Setup::SetOutputJustVt(guard) => Step::Failed(
                    Some(guard),
                    Error::SetConsoleMode(os_error),
                ),
                Setup::SetInput(guard) => Step::Failed(
                    Some(guard),
                    Error::SetConsoleMode(os_error),
                ),
            }
        } else {
            match self {
                Setup::ReadInput => Step::Next(Setup::ReadOutput(mode)),
                Setup::ReadOutput(in_mode) => Step::Next(
                    Setup::SetOutput(RawModeGuard { in_mode, out_mode: mode }),
                ),
                Setup::SetOutput(guard) => Step::Next(Setup::SetInput(guard)),
                Setup::SetOutputJustVt(guard) => Step::Next(Setup::SetInput(guard)),
                Setup::SetInput(guard) => Step::Ready(guard),
            }
        }
    }

    /// The call to be made.
    pub fn request(&self) -> (request: Request)
        ensures
            request == self.spec_request(),
    {
        match self {
            Setup::ReadInput => Request::GetMode(Side::Input),
            Setup::ReadOutput(_) => Request::GetMode(Side::Output),
            Setup::SetOutput(guard) => {
                let vt_out_mode: u32 = guard.out_mode | ENABLE_VIRTUAL_TERMINAL_PROCESSING
                    | DISABLE_NEWLINE_AUTO_RETURN;
                Request::SetMode(Side::Output, vt_out_mode)
            },
            Setup::SetOutputJustVt(guard) => {
                let just_vt: u32 = guard.out_mode | ENABLE_VIRTUAL_TERMINAL_PROCESSING;
                Request::SetMode(Side::Output, just_vt)
            },
            Setup::SetInput(guard) => {
                let vt_in_mode: u32 = (guard.in_mode | ENABLE_VIRTUAL_TERMINAL_INPUT) & !(
                ENABLE_LINE_INPUT | ENABLE_PROCESSED_INPUT | ENABLE_ECHO_INPUT);
                Request::SetMode(Side::Input, vt_in_mode)
            },
        }
    }

    /// What comes after that call. It returned `ret`; `mode` is the mode that
    /// it read, if it was to read one.
    pub fn after<E>(self, ret: i32, mode: u32, os_error: E) -> (step: Step<E>)
        ensures
            step == self.spec_after(ret, mode, os_error),
    {
        match self {
            Setup::ReadInput => match get_mode(ret, mode, os_error) {
                Ok(in_mode) => Step::Next(Setup::ReadOutput(in_mode)),
                Err(e) => Step::Failed(None, e),
            },
            Setup::ReadOutput(in_mode) => match get_mode(ret, mode, os_error) {
                Ok(out_mode) => Step::Next(Setup::SetOutput(RawModeGuard { in_mode, out_mode })),
                Err(e) => Step::Failed(None, e),
            },
            Setup::SetOutput(guard) => {
                if ret == CALL_FAILED {
                    // may be only failing to disable newline auto-return, try without
                    Step::Next(Setup::SetOutputJustVt(guard))
                } else {
                    Step::Next(Setup::SetInput(guard))
                }
            },
            Setup::SetOutputJustVt(guard) => {
                if ret == CALL_FAILED {
                    Step::Failed(Some(guard), Error::SetConsoleMode(os_error))
                } else {
                    Step::Next(Setup::SetInput(guard))
                }
            },
            Setup::SetInput(guard) => {
                if ret == CALL_FAILED {
                    Step::Failed(Some(guard), Error::SetConsoleMode(os_error))
                } else {
                    Step::Ready(guard)
                }
            },
        }
    }
}

impl RawModeGuard {
    /// The call that restores one side.
    pub open spec fn spec_restore(&self, side: Side) -> Request {
        match side {
            Side::Input => Request::SetMode(Side::Input, self.in_mode),
            Side::Output => Request::SetMode(Side::Output, self.out_mode),
        }
    }

    /// The call that restores one side. The input is restored first.
    pub fn restore(&self, side: Side) -> (request: Request)
        ensures
            request == self.spec_restore(side),
            side is Input ==> request == Request::SetMode(Side::Input, self.in_mode),
            side is Output ==> request == Request::SetMode(Side::Output, self.out_mode),
    {
        match side {
            Side::Input => Request::SetMode(Side::Input, self.in_mode),
            Side::Output => Request::SetMode(Side::Output, self.out_mode),
        }
    }

    /// After the call that restores `side`: the side to restore next, if any.
    pub fn after_restore<E>(&self, side: Side, ret: i32, os_error: E) -> (next: Result<
        Option<Side>,
        Error<E>,
    >)
        ensures
            next == if ret == CALL_FAILED {
                Err::<Option<Side>, Error<E>>(Error::SetConsoleMode(os_error))
            } else if side == Side::Input {
                Ok(Some(Side::Output))
            } else {
                Ok(None)
            },
            next is Err <==> ret == 0,
    {
        if ret == CALL_FAILED {
            return Err(Error::SetConsoleMode(os_error));
        }
        match side {
            Side::Input => Ok(Some(Side::Output)),
            Side::Output => Ok(None),
        }
    }
}

/// The modes of a console.
pub struct Modes {
    pub in_mode: u32,
    pub out_mode: u32,
}

impl Modes {
    /// The console after a call that did not fail.
    pub open spec fn after(self, request: Request) -> Modes {
        match request {
            Request::SetMode(Side::Input, mode) => Modes { in_mode: mode, ..self },
            Request::SetMode(Side::Output, mode) => Modes { out_mode: mode, ..self },
            Request::GetMode(_) => self,
        }
    }

    /// The mode that a call reads.
    pub open spec fn mode_read(self, request: Request) -> u32 {
        match request {
            Request::GetMode(Side::Input) => self.in_mode,
            Request::GetMode(Side::Output) => self.out_mode,
            Request::SetMode(_, mode) => mode,
        }
    }

    /// The console once `guard` has restored both sides.
    pub open spec fn restored(self, guard: RawModeGuard) -> Modes {
        self.after(guard.spec_restore(Side::Input)).after(guard.spec_restore(Side::Output))
    }
}

/// The console and the outcome once `setup` has made its calls, which return
/// `rets`. A call that fails changes nothing.
pub open spec fn drive<E>(setup: Setup, console: Modes, rets: Seq<i32>, os_error: E) -> (
    Modes,
    Step<E>,
)
    decreases rets.len(),
{
    if rets.len() == 0 {
        (console, Step::Next(setup))
    } else {
        let request = setup.spec_request();
        let then = if rets[0] == CALL_FAILED {
            console
        } else {
            console.after(request)
        };
        match setup.spec_after(rets[0], console.mode_read(request), os_error) {
            Step::Next(next) => drive(next, then, rets.skip(1), os_error),
            done => (then, done),
        }
    }
}

/// However the calls turn out, a guard that comes of them restores the modes
/// that the console had at first; and if all went well, the console was put
/// into the modes for raw input and output.
pub proof fn law_restore_undoes_raw_mode<E>(console: Modes, rets: Seq<i32>, os_error: E)
    ensures
        ({
            let (end, step) = drive(Setup::ReadInput, console, rets, os_error);
            &&& step matches Step::Ready(guard) ==> {
                &&& end.restored(guard) == console
                &&& end.in_mode == spec_vt_in_mode(console.in_mode)
                &&& end.out_mode == spec_vt_out_mode(console.out_mode) || end.out_mode
                    == spec_just_vt_mode(console.out_mode)
            }
            &&& step matches Step::Failed(Some(guard), _) ==> end.restored(guard) == console
            &&& step matches Step::Failed(None, _) ==> end == console
        }),
{
    reveal_with_fuel(drive, 6);
}

/// How entering raw mode turns out depends on what the calls return and on
/// nothing else; in particular not on the modes that the console has. It
/// succeeds after four calls of which none failed, and after five of which only
/// the third did. It fails only right after a call that failed, with the error
/// of that call.
pub proof fn law_raw_mode_outcome<E>(console: Modes, rets: Seq<i32>, os_error: E)
    ensures
        ({
            let step = drive(Setup::ReadInput, console, rets, os_error).1;
            let read = rets.len() >= 2 && rets[0] != 0 && rets[1] != 0;
            let at_once = read && rets.len() >= 4 && rets[2] != 0;
            let second_try = read && rets.len() >= 4 && rets[2] == 0;
            &&& step is Ready <==> {
                ||| at_once && rets[3] != 0
                ||| second_try && rets[3] != 0 && rets.len() >= 5 && rets[4] != 0
            }
            &&& step matches Step::Failed(None, e) ==> e == Error::GetConsoleMode(os_error)
            &&& step matches Step::Failed(Some(_), e) ==> e == Error::SetConsoleMode(os_error)
            &&& (step matches Step::Failed(None, _)) <==> {
                ||| rets.len() >= 1 && rets[0] == 0
                ||| rets.len() >= 2 && rets[0] != 0 && rets[1] == 0
            }
            &&& (step matches Step::Failed(Some(_), _)) <==> {
                ||| at_once && rets[3] == 0
                ||| second_try && rets[3] == 0
                ||| second_try && rets[3] != 0 && rets.len() >= 5 && rets[4] == 0
            }
        }),
{
    reveal_with_fuel(drive, 6);
}

/// A step fails only if its call did, whatever the console's modes are.
pub proof fn law_step_fails_only_after_a_failed_call<E>(
    setup: Setup,
    ret: i32,
    mode: u32,
    os_error: E,
)
    ensures
        setup.spec_after(ret, mode, os_error) is Failed ==> ret == 0,
        ret == 0 ==> (setup.spec_after(ret, mode, os_error) is Failed || setup is SetOutput),
        setup.spec_after(ret, mode, os_error) is Ready <==> ret != 0 && setup is SetInput,
{
}

/// The calls that enter raw mode, one after the other, for any modes read: the
/// input mode is read, then the output mode; the output mode is set, a second
/// time without newline auto-return if that failed; then the input mode is set,
/// and what was read is remembered.
pub proof fn law_calls_in_order<E>(in_mode: u32, out_mode: u32, ret: i32, mode: u32, os_error: E)
    requires
        ret != 0,
    ensures
        Setup::ReadInput.spec_request() == Request::GetMode(Side::Input),
        ({
            &&& Setup::ReadInput.spec_after(ret, in_mode, os_error) matches Step::Next(second)
            &&& second.spec_request() == Request::GetMode(Side::Output)
            &&& second.spec_after(ret, out_mode, os_error) matches Step::Next(third)
            &&& third.spec_request() matches Request::SetMode(Side::Output, full)
            &&& full & !0x000cu32 == out_mode & !0x000cu32
            &&& full & 0x000cu32 == 0x000cu32
            &&& third.spec_after(0, mode, os_error) matches Step::Next(again)
            &&& again.spec_request() matches Request::SetMode(Side::Output, less)
            &&& less & !0x0004u32 == out_mode & !0x0004u32
            &&& less & 0x0004u32 == 0x0004u32
            &&& third.spec_after(ret, mode, os_error) matches Step::Next(last)
            &&& again.spec_after(ret, mode, os_error) == Step::<E>::Next(last)
            &&& last.spec_request() matches Request::SetMode(Side::Input, raw)
            &&& raw & !0x0207u32 == in_mode & !0x0207u32
            &&& raw & 0x0207u32 == 0x0200u32
            &&& last.spec_after(ret, mode, os_error) matches Step::Ready(guard)
            &&& guard.in_mode == in_mode
            &&& guard.out_mode == out_mode
            &&& again.spec_after(0, mode, os_error) == Step::Failed(
                Some(guard),
                Error::SetConsoleMode(os_error),
            )
            &&& last.spec_after(0, mode, os_error) == Step::Failed(
                Some(guard),
                Error::SetConsoleMode(os_error),
            )
        }),
{
    let full = out_mode | 0x0004u32 | 0x0008u32;
    let less = out_mode | 0x0004u32;
    let raw = (in_mode | 0x0200u32) & !(0x0002u32 | 0x0001u32 | 0x0004u32);
    assert({
        &&& full & !0x000cu32 == out_mode & !0x000cu32
        &&& full & 0x000cu32 == 0x000cu32
    }) by (bit_vector)
        requires
            full == out_mode | 0x0004u32 | 0x0008u32,
    ;
    assert({
        &&& less & !0x0004u32 == out_mode & !0x0004u32
        &&& less & 0x0004u32 == 0x0004u32
    }) by (bit_vector)
        requires
            less == out_mode | 0x0004u32,
    ;
    assert({
        &&& raw & !0x0207u32 == in_mode & !0x0207u32
        &&& raw & 0x0207u32 == 0x0200u32
    }) by (bit_vector)
        requires
            raw == (in_mode | 0x0200u32) & !(0x0002u32 | 0x0001u32 | 0x0004u32),
    ;
}

/// Going back sets each side to the mode that the guard remembers for it.
pub proof fn law_restore_sets_each_side(guard: RawModeGuard)
    ensures
        guard.spec_restore(Side::Input) == Request::SetMode(Side::Input, guard.in_mode),
        guard.spec_restore(Side::Output) == Request::SetMode(Side::Output, guard.out_mode),
{
}

/// Raw input is neither echoed, nor gathered into lines, nor searched for
/// Ctrl-C, and comes as virtual terminal sequences; nothing else changes.
pub proof fn law_raw_input_mode(in_mode: u32)
    ensures
        spec_vt_in_mode(in_mode) & ENABLE_ECHO_INPUT == 0,
        spec_vt_in_mode(in_mode) & ENABLE_LINE_INPUT == 0,
        spec_vt_in_mode(in_mode) & ENABLE_PROCESSED_INPUT == 0,
        spec_vt_in_mode(in_mode) & ENABLE_VIRTUAL_TERMINAL_INPUT == ENABLE_VIRTUAL_TERMINAL_INPUT,
        spec_vt_in_mode(in_mode) & !0x0207u32 == in_mode & !0x0207u32,
        ENABLE_PROCESSED_INPUT == 0x0001,
        ENABLE_LINE_INPUT == 0x0002,
        ENABLE_ECHO_INPUT == 0x0004,
        ENABLE_VIRTUAL_TERMINAL_INPUT == 0x0200,
{
    assert({
        let m = (in_mode | 0x0200u32) & !(0x0002u32 | 0x0001u32 | 0x0004u32);
        &&& m & 0x0004u32 == 0
        &&& m & 0x0002u32 == 0
        &&& m & 0x0001u32 == 0
        &&& m & 0x0200u32 == 0x0200u32
        &&& m & !0x0207u32 == in_mode & !0x0207u32
    }) by (bit_vector);
}

/// Raw output understands virtual terminal sequences, leaves line feeds alone
/// where that can be had, and changes in nothing else.
pub proof fn law_raw_output_mode(out_mode: u32)
    ensures
        spec_vt_out_mode(out_mode) & ENABLE_VIRTUAL_TERMINAL_PROCESSING
            == ENABLE_VIRTUAL_TERMINAL_PROCESSING,
        spec_vt_out_mode(out_mode) & DISABLE_NEWLINE_AUTO_RETURN == DISABLE_NEWLINE_AUTO_RETURN,
        spec_vt_out_mode(out_mode) & !0x000cu32 == out_mode & !0x000cu32,
        spec_just_vt_mode(out_mode) & ENABLE_VIRTUAL_TERMINAL_PROCESSING
            == ENABLE_VIRTUAL_TERMINAL_PROCESSING,
        spec_just_vt_mode(out_mode) & !0x0004u32 == out_mode & !0x0004u32,
        ENABLE_VIRTUAL_TERMINAL_PROCESSING == 0x0004,
        DISABLE_NEWLINE_AUTO_RETURN == 0x0008,
{
    assert({
        let m = out_mode | 0x0004u32 | 0x0008u32;
        let n = out_mode | 0x0004u32;
        &&& m & 0x0004u32 == 0x0004u32
        &&& m & 0x0008u32 == 0x0008u32
        &&& m & !0x000cu32 == out_mode & !0x000cu32
        &&& n & 0x0004u32 == 0x0004u32
        &&& n & !0x0004u32 == out_mode & !0x0004u32
    }) by (bit_vector);
}

} // verus!
