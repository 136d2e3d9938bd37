use thouart::input::{Error, EscapeSequence};
use thouart::relay::{
    after_read, after_read_sent, ReadAction, ReadOutcome, RelayAction, StdinRelay,
};

fn escape(bytes: &[u8], prefix_length: usize) -> EscapeSequence {
    match EscapeSequence::new(bytes.to_vec(), prefix_length) {
        Ok(escape) => escape,
        Err(_) => panic!("escape sequence was refused"),
    }
}

fn process(escape: &mut EscapeSequence, inbuf: &[u8]) -> (Vec<u8>, bool) {
    assert!(escape.accepts(inbuf));
    escape.process(inbuf.to_vec())
}

fn after_received(relay: &mut StdinRelay, inbuf: &[u8]) -> RelayAction {
    assert!(relay.accepts(inbuf));
    relay.after_received(Some(inbuf.to_vec()))
}

fn ascii(text: &str) -> Vec<u8> {
    text.chars().map(|c| c as u8).collect()
}

#[test]
fn test_stdin_relay_task() {
    let mut relay = StdinRelay::new(Some(escape(&[0x1d, 0x03], 0)));

    // send characters, receive characters
    match after_received(&mut relay, &ascii("test post please ignore")) {
        RelayAction::Send(actual) => assert_eq!(
            String::from_utf8(actual).unwrap(),
            "test post please ignore"
        ),
        _ => panic!(),
    }
    assert!(matches!(relay.after_sent(true), RelayAction::Receive));

    // don't send a started escape sequence
    assert!(matches!(
        after_received(&mut relay, &ascii("\x1d")),
        RelayAction::Receive
    ));

    // since we didn't enter the \x03, the previous \x1d shows up here
    match after_received(&mut relay, &ascii("test")) {
        RelayAction::Send(actual) => {
            assert_eq!(String::from_utf8(actual).unwrap(), "\x1dtest")
        }
        _ => panic!(),
    }
    assert!(matches!(relay.after_sent(true), RelayAction::Receive));

    // \x03 gets sent if not preceded by \x1d
    match after_received(&mut relay, &ascii("\x03")) {
        RelayAction::Send(actual) => assert_eq!(String::from_utf8(actual).unwrap(), "\x03"),
        _ => panic!(),
    }
    assert!(matches!(relay.after_sent(true), RelayAction::Receive));

    // \x1d followed by \x03 means exit, even if they're separate messages
    assert!(matches!(
        after_received(&mut relay, &ascii("\x1d")),
        RelayAction::Receive
    ));
    assert!(matches!(
        after_received(&mut relay, &ascii("\x03")),
        RelayAction::Stop
    ));
}

#[test]
fn relay_sends_what_came_before_the_escape_and_then_stops() {
    let mut relay = StdinRelay::new(Some(escape(&[0x1d, 0x03], 0)));
    match after_received(&mut relay, b"bye\x1d\x03ignored") {
        RelayAction::Send(actual) => assert_eq!(actual, b"bye"),
        _ => panic!(),
    }
    assert!(matches!(relay.after_sent(true), RelayAction::Stop));
    assert!(matches!(relay.after_sent(false), RelayAction::Stop));
}

#[test]
fn relay_stops_when_a_channel_is_closed() {
    let mut relay = StdinRelay::new(None);
    assert!(matches!(relay.after_received(None), RelayAction::Stop));
    match after_received(&mut relay, b"x") {
        RelayAction::Send(actual) => assert_eq!(actual, b"x"),
        _ => panic!(),
    }
    assert!(matches!(relay.after_sent(false), RelayAction::Stop));
}

#[test]
fn relay_without_escape_sends_every_chunk_as_it_is() {
    let mut relay = StdinRelay::new(None);
    for chunk in [&b"\n~."[..], &b""[..], &b"\x1d\x03"[..]] {
        match after_received(&mut relay, chunk) {
            RelayAction::Send(actual) => assert_eq!(actual, chunk),
            _ => panic!(),
        }
        assert!(matches!(relay.after_sent(true), RelayAction::Receive));
    }
}

#[test]
fn reader_passes_on_what_was_read() {
    let mut inbuf = [0u8; thouart::relay::READ_BUFFER_LEN];
    inbuf[0] = 7;
    inbuf[1] = 8;
    match after_read(&inbuf, ReadOutcome::Read(2)) {
        ReadAction::Send(chunk) => assert_eq!(chunk, [7, 8]),
        _ => panic!(),
    }
    match after_read(&inbuf, ReadOutcome::Read(1024)) {
        ReadAction::Send(chunk) => assert_eq!(chunk, inbuf),
        _ => panic!(),
    }
    assert!(matches!(after_read(&inbuf, ReadOutcome::Read(0)), ReadAction::Stop));
    assert!(matches!(after_read(&inbuf, ReadOutcome::Failed), ReadAction::Stop));
    assert!(matches!(after_read_sent(true), ReadAction::Read));
    assert!(matches!(after_read_sent(false), ReadAction::Stop));
}

#[test]
fn prefix_longer_than_the_sequence_is_refused() {
    match EscapeSequence::new(vec![1, 2], 3) {
        Err(Error::PrefixTooLong(3, 2)) => (),
        _ => panic!(),
    }
    assert!(EscapeSequence::new(vec![1, 2], 2).is_ok());
    assert!(EscapeSequence::new(vec![], 0).is_ok());
}

#[test]
fn enter_tilde_dot() {
    let mut e = escape(b"\n~.", 1);
    assert_eq!(process(&mut e, b"ls\n"), (b"ls\n".to_vec(), false));
    assert_eq!(process(&mut e, b"~"), (vec![], false));
    assert_eq!(process(&mut e, b"x"), (b"~x".to_vec(), false));
    assert_eq!(process(&mut e, b"\n"), (b"\n".to_vec(), false));
    assert_eq!(process(&mut e, b"~."), (vec![], true));
}

#[test]
fn chunks_make_no_difference() {
    let input = b"ab\n\x1b[1;2R~x\n~~\n\x1b[14;30R~.zz";
    let mut whole = escape(b"\n~.", 1);
    let (expected, exit) = process(&mut whole, input);
    assert_eq!(expected, b"ab\n\x1b[1;2R~x\n~~\n\x1b[14;30R");
    assert!(exit);
    for size in 1..input.len() {
        let mut e = escape(b"\n~.", 1);
        let mut out = vec![];
        let mut exited = false;
        for chunk in input.chunks(size) {
            let (more, exit) = process(&mut e, chunk);
            out.extend(more);
            if exit {
                exited = true;
                break;
            }
        }
        assert_eq!(out, expected);
        assert!(exited);
    }
}

#[test]
fn sequence_that_starts_inside_a_broken_match_is_found() {
    let mut e = escape(b"\n~.", 1);
    assert_eq!(process(&mut e, b"\n\n~."), (b"\n\n".to_vec(), true));
    let mut e = escape(b"aab", 0);
    assert_eq!(process(&mut e, b"aaab"), (b"a".to_vec(), true));
    // what still belongs to a match is kept back, what does not is let through
    let mut e = escape(b"\n~\n~.", 1);
    assert_eq!(process(&mut e, b"\n~\n~"), (b"\n".to_vec(), false));
    assert_eq!(process(&mut e, b"\n"), (b"~\n".to_vec(), false));
    assert_eq!(process(&mut e, b"~."), (vec![], true));
}

fn words(letters: &[u8], len: usize) -> Vec<Vec<u8>> {
    let mut all = vec![vec![]];
    for _ in 0..len {
        let mut longer = vec![];
        for word in &all {
            for letter in letters {
                let mut word = word.clone();
                word.push(*letter);
                longer.push(word);
            }
        }
        all = longer;
    }
    all
}

#[test]
fn every_short_sequence_is_found_exactly_where_it_is_fed() {
    for len in 1..5 {
        for bytes in words(b"a\n", len) {
            for prefix in 0..len + 1 {
                for input in words(b"a\n", 8) {
                    let mut e = escape(&bytes, prefix);
                    let mut out = vec![];
                    let mut exit_at = None;
                    for (i, c) in input.iter().enumerate() {
                        let (more, exit) = process(&mut e, &[*c]);
                        out.extend(more);
                        if exit {
                            exit_at = Some(i + 1);
                            break;
                        }
                    }
                    let expected = input
                        .windows(len)
                        .position(|window| window == &bytes[..])
                        .map(|i| i + len);
                    assert_eq!(exit_at, expected);
                    if let Some(end) = exit_at {
                        let suppressed = std::cmp::max(len - prefix, 1);
                        assert_eq!(out, input[..end - suppressed]);
                    } else {
                        assert!(input.starts_with(&out));
                    }
                }
            }
        }
    }
}

#[test]
fn mismatch_within_the_prefix_adds_only_its_byte() {
    let mut e = escape(b"abc", 2);
    assert_eq!(process(&mut e, b"ax"), (b"ax".to_vec(), false));
    assert_eq!(process(&mut e, b"a"), (b"a".to_vec(), false));
    assert_eq!(process(&mut e, b"abc"), (b"ab".to_vec(), true));
}

#[test]
fn whole_sequence_as_prefix_keeps_back_its_last_byte() {
    let mut e = escape(b"abc", 3);
    assert_eq!(process(&mut e, b"abc"), (b"ab".to_vec(), true));
}

#[test]
fn cursor_position_report_does_not_disturb_the_match() {
    let mut e = escape(b"\n~.", 1);
    assert_eq!(process(&mut e, b"\n"), (b"\n".to_vec(), false));
    for part in [&b"\x1b"[..], &b"["[..], &b"14"[..], &b";"[..], &b"30"[..]] {
        assert_eq!(process(&mut e, part), (vec![], false));
    }
    assert_eq!(process(&mut e, b"R"), (b"\x1b[14;30R".to_vec(), false));
    assert_eq!(process(&mut e, b"\x1b[1;1R"), (b"\x1b[1;1R".to_vec(), false));
    assert_eq!(process(&mut e, b"~."), (vec![], true));
}

#[test]
fn what_only_looks_like_a_report_is_let_through() {
    for (input, output) in [
        (&b"\n\x1bx"[..], &b"\n\x1bx"[..]),
        (&b"\n\x1b["[..], &b"\n"[..]),
        (&b"\n\x1b[;"[..], &b"\n\x1b[;"[..]),
        (&b"\n\x1b[1;R"[..], &b"\n\x1b[1;R"[..]),
        (&b"\n\x1b[1R"[..], &b"\n\x1b[1R"[..]),
        (&b"\n\x1b[1;2A"[..], &b"\n\x1b[1;2A"[..]),
        (&b"\n\x1b[1;2\n"[..], &b"\n\x1b[1;2\n"[..]),
        (&b"\n\x1b\x1b"[..], &b"\n\x1b\x1b"[..]),
        (&b"\nR"[..], &b"\nR"[..]),
        (&b"\n\xff"[..], &b"\n\xff"[..]),
        (&b"x\x1b[1;2R"[..], &b"x\x1b[1;2R"[..]),
    ] {
        let mut e = escape(b"\n~.", 1);
        assert_eq!(process(&mut e, input), (output.to_vec(), false));
    }
}

#[test]
fn report_is_only_expected_after_a_newline_of_the_prefix() {
    // beyond the prefix the escape character simply breaks the match off
    let mut e = escape(b"\n~.", 0);
    assert_eq!(process(&mut e, b"\n\x1b"), (b"\n\x1b".to_vec(), false));
    // a carriage return counts too
    let mut e = escape(b"\r~.", 1);
    assert_eq!(process(&mut e, b"\r\x1b"), (b"\r".to_vec(), false));
    // any other byte does not
    let mut e = escape(b"a~.", 1);
    assert_eq!(process(&mut e, b"a\x1b"), (b"a\x1b".to_vec(), false));
}

#[test]
fn bytes_taken_for_a_report_in_vain_count_as_typed() {
    let mut e = escape(b"\n~.", 1);
    assert_eq!(process(&mut e, b"\n\x1b[~."), (b"\n\x1b[~.".to_vec(), false));
    let mut e = escape(b"\n\x1bx", 1);
    assert_eq!(process(&mut e, b"\n\x1bx"), (b"\n".to_vec(), true));
    let mut e = escape(b"\n\x1bx", 0);
    assert_eq!(process(&mut e, b"\n\x1bx"), (vec![], true));
}

#[test]
fn sequence_that_could_still_become_a_report_waits() {
    let mut e = escape(b"\n\x1b[", 1);
    assert_eq!(process(&mut e, b"\n\x1b["), (b"\n".to_vec(), false));
    assert_eq!(process(&mut e, b"1;1R"), (b"\x1b[1;1R".to_vec(), false));
    assert_eq!(process(&mut e, b"\x1b["), (vec![], false));
    assert_eq!(process(&mut e, b"x"), (vec![], true));
}

#[test]
fn input_that_cannot_be_dealt_with() {
    // nothing can complete an empty sequence
    let e = escape(b"", 0);
    assert!(e.accepts(b""));
    assert!(!e.accepts(b"a"));
    // nothing more is expected after the sequence
    let mut e = escape(b"abc", 2);
    assert!(e.accepts(b"axabcx"));
    assert_eq!(process(&mut e, b"abc"), (b"ab".to_vec(), true));
    assert!(e.accepts(b""));
    assert!(!e.accepts(b"a"));
    // except for a report
    let mut e = escape(b"a\n", 2);
    assert_eq!(process(&mut e, b"a\n"), (b"a".to_vec(), true));
    assert!(e.accepts(b"\x1b[1;2R"));
    assert!(!e.accepts(b"\x1b[1;2Rx"));
    assert_eq!(process(&mut e, b"\x1b[1;2R"), (b"\x1b[1;2R".to_vec(), false));
}

#[test]
fn errors_can_be_shown() {
    assert_eq!(
        format!("{:?}", EscapeSequence::new(vec![1], 2).err().unwrap()),
        "PrefixTooLong(2, 1)"
    );
    EscapeSequence::new(b"\n~.".to_vec(), 1).unwrap();
}

#[test]
fn input_arrives_unchanged_without_an_escape_sequence() {
    let mut relay = StdinRelay::new(None);
    let mut inbuf = [0u8; thouart::relay::READ_BUFFER_LEN];
    let mut arrived = vec![];
    for (value, n) in [(1u8, 1024usize), (2, 1), (3, 7), (4, 0)] {
        inbuf[..n].fill(value);
        match after_read(&inbuf, ReadOutcome::Read(n)) {
            ReadAction::Send(chunk) => {
                assert!(!chunk.is_empty() && chunk.len() <= 1024);
                match after_received(&mut relay, &chunk) {
                    RelayAction::Send(sent) => arrived.extend(sent),
                    _ => panic!(),
                }
            }
            ReadAction::Stop => assert_eq!(n, 0),
            ReadAction::Read => panic!(),
        }
    }
    let mut expected = vec![1; 1024];
    expected.extend([2, 3, 3, 3, 3, 3, 3, 3]);
    assert_eq!(arrived, expected);
}
