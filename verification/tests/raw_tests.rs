use thouart::echo::{Echo, EchoAction};
use thouart::raw::reset::{reset_file, Stage};
use thouart::raw::unix;
use thouart::raw::windows;

#[test]
fn unix_guard_restores_what_was_read() {
    let guard = match unix::RawModeGuard::attach(5, 0, 'a', "unused") {
        Ok(guard) => guard,
        Err(_) => panic!(),
    };
    assert_eq!(guard.saved(), 'a');
    let request = guard.enter('b');
    assert_eq!((request.fd, request.when, request.termios), (5, unix::When::Flush, 'b'));
    let guard = match guard.after_enter(0, "unused") {
        unix::Activation::Active(guard) => guard,
        _ => panic!(),
    };
    let request = guard.restore();
    assert_eq!((request.fd, request.when, request.termios), (5, unix::When::Drain, 'a'));
    assert!(guard.after_restore(0, "unused").is_ok());
}

#[test]
fn unix_errors() {
    match unix::RawModeGuard::attach(5, -1, 'a', "get") {
        Err(unix::Error::TcGetAttr("get")) => (),
        _ => panic!(),
    }
    let guard = match unix::RawModeGuard::attach(5, 0, 'a', "unused") {
        Ok(guard) => guard,
        Err(_) => panic!(),
    };
    match guard.after_enter(-1, "set") {
        unix::Activation::Failed(guard, unix::Error::TcSetAttr("set", "TCSAFLUSH")) => {
            assert_eq!(guard.restore().termios, 'a');
            match guard.after_restore(-1, "reset") {
                Err(unix::Error::TcSetAttr("reset", "TCSADRAIN")) => (),
                _ => panic!(),
            }
        }
        _ => panic!(),
    }
}

fn drive(rets: &[i32]) -> (Vec<windows::Request>, windows::Step<&'static str>) {
    let mut setup = windows::Setup::ReadInput;
    let mut requests = vec![];
    for ret in rets {
        let request = setup.request();
        requests.push(request);
        let mode = match request {
            windows::Request::GetMode(windows::Side::Input) => 0x01f7,
            windows::Request::GetMode(windows::Side::Output) => 0x0003,
            windows::Request::SetMode(_, _) => 0,
        };
        match setup.after(*ret, mode, "oops") {
            windows::Step::Next(next) => setup = next,
            step => return (requests, step),
        }
    }
    panic!("the calls do not lead to an end");
}

#[test]
fn windows_setup() {
    let (requests, step) = drive(&[1, 1, 1, 1]);
    assert_eq!(
        requests,
        [
            windows::Request::GetMode(windows::Side::Input),
            windows::Request::GetMode(windows::Side::Output),
            windows::Request::SetMode(windows::Side::Output, 0x000f),
            windows::Request::SetMode(windows::Side::Input, 0x03f0),
        ]
    );
    match step {
        windows::Step::Ready(guard) => {
            assert_eq!(
                guard.restore(windows::Side::Input),
                windows::Request::SetMode(windows::Side::Input, 0x01f7)
            );
            assert_eq!(
                guard.restore(windows::Side::Output),
                windows::Request::SetMode(windows::Side::Output, 0x0003)
            );
            match guard.after_restore(windows::Side::Input, 1, "oops") {
                Ok(Some(windows::Side::Output)) => (),
                _ => panic!(),
            }
            assert!(matches!(guard.after_restore(windows::Side::Output, 1, "oops"), Ok(None)));
            match guard.after_restore(windows::Side::Input, 0, "oops") {
                Err(windows::Error::SetConsoleMode("oops")) => (),
                _ => panic!(),
            }
        }
        _ => panic!(),
    }
}

#[test]
fn windows_setup_without_newline_auto_return() {
    let (requests, step) = drive(&[1, 1, 0, 1, 1]);
    assert_eq!(
        requests[3],
        windows::Request::SetMode(windows::Side::Output, 0x0007)
    );
    assert!(matches!(step, windows::Step::Ready(_)));
}

#[test]
fn windows_setup_failures() {
    for rets in [&[0][..], &[1, 0][..]] {
        match drive(rets).1 {
            windows::Step::Failed(None, windows::Error::GetConsoleMode("oops")) => (),
            _ => panic!(),
        }
    }
    for rets in [&[1, 1, 0, 0][..], &[1, 1, 1, 0][..], &[1, 1, 0, 1, 0][..]] {
        match drive(rets).1 {
            windows::Step::Failed(Some(guard), windows::Error::SetConsoleMode("oops")) => {
                assert_eq!((guard.in_mode, guard.out_mode), (0x01f7, 0x0003));
            }
            _ => panic!(),
        }
    }
}

#[test]
fn reset_stages() {
    assert_eq!(Stage::first(false), Stage::Done);
    let mut stage = Stage::first(true);
    let mut seen = vec![];
    while stage != Stage::Done {
        seen.push(stage);
        stage = stage.next();
    }
    assert_eq!(seen, [Stage::Reset1, Stage::Reset2, Stage::File, Stage::Reset3]);
    assert_eq!(Stage::Done.next(), Stage::Done);
}

#[test]
fn reset_file_is_text_or_passed_over() {
    assert_eq!(reset_file(None), None);
    assert_eq!(
        reset_file(Some(b"/usr/share/tabset/vt100".to_vec())),
        Some("/usr/share/tabset/vt100".to_string())
    );
    assert_eq!(reset_file(Some(vec![0xc3, 0xa9])), Some("\u{e9}".to_string()));
    assert_eq!(reset_file(Some(vec![0xff])), None);
}

#[test]
fn echo_reads_and_writes_in_turn() {
    let mut echo = Echo::new();
    assert_eq!(echo.action(), EchoAction::Read);
    assert!(echo.after_read(Some(vec![1, 2])));
    assert_eq!(echo.action(), EchoAction::Write);
    assert_eq!(echo.buffer(), [1, 2]);
    echo.after_write();
    assert_eq!(echo.action(), EchoAction::Read);
    assert!(!echo.after_read(None));
}
