//! The two tasks between standard input and its readers.
//!
//! Reading from a terminal is not cancel-safe, so one task reads bytes and
//! puts them on a channel, and a second one takes them off, filters them for
//! the escape sequence, and relays what is left. What each task does next is
//! decided here; the reading, sending and receiving is up to the caller.

use crate::input::EscapeSequence;
use crate::laws::{join, law_calls_are_one_call, run_calls};
use crate::matcher::Matcher;
use vstd::prelude::*;

verus! {

/// How many bytes are read from standard input at a time, at most.
pub const READ_BUFFER_LEN: usize = 1024;

/// How many chunks each of the two channels holds.
pub const CHANNEL_CAPACITY: usize = 16;

/// What came of reading from standard input.
pub enum ReadOutcome {
    /// The read failed.
    Failed,
    /// This many bytes were read; none at the end of the stream.
    Read(usize),
}

/// What the reading task does next.
pub enum ReadAction {
    /// Read again.
    Read,
    /// Put these bytes on the channel.
    Send(Vec<u8>),
    /// Stop.
    Stop,
}

/// What a read into `inbuf` yields: nothing if it failed or the stream has
/// ended.
pub open spec fn chunk_read(inbuf: Seq<u8>, outcome: ReadOutcome) -> Option<Seq<u8>> {
    match outcome {
        ReadOutcome::Failed => None,
        ReadOutcome::Read(n) => if n == 0 {
            None
        } else {
            Some(inbuf.take(n as int))
        },
    }
}

/// A read yields its bytes, from the first on, as many as were read; only one
/// that failed or found the end of the stream yields none.
pub proof fn law_read_yields_what_was_read(inbuf: Seq<u8>, outcome: ReadOutcome)
    requires
        outcome matches ReadOutcome::Read(n) ==> n <= inbuf.len(),
    ensures
        chunk_read(inbuf, outcome) is None <==> outcome is Failed || outcome
            == ReadOutcome::Read(0),
        chunk_read(inbuf, outcome) matches Some(chunk) ==> {
            &&& outcome == ReadOutcome::Read(chunk.len() as usize)
            &&& forall|i: int| 0 <= i < chunk.len() ==> #[trigger] chunk[i] == inbuf[i]
        },
        READ_BUFFER_LEN == 1024,
        CHANNEL_CAPACITY == 16,
{
}

/// After a read into `inbuf`: pass on what was read, or stop if the read
/// failed or the stream has ended.
pub fn after_read(inbuf: &[u8], outcome: ReadOutcome) -> (action: ReadAction)
    requires
        outcome matches ReadOutcome::Read(n) ==> n <= inbuf.len(),
    ensures
        match chunk_read(inbuf@, outcome) {
            None => action == ReadAction::Stop,
            Some(chunk) => action matches ReadAction::Send(sent) && sent@ == chunk,
        },
        match outcome {
            ReadOutcome::Failed => action is Stop,
            ReadOutcome::Read(n) => if n == 0 {
                action is Stop
            } else {
                &&& action matches ReadAction::Send(sent)
                &&& sent@.len() == n
                &&& forall|i: int| 0 <= i < n ==> #[trigger] sent@[i] == inbuf@[i]
            },
        },
{
    match outcome {
        ReadOutcome::Failed => ReadAction::Stop,
        ReadOutcome::Read(n) => {
            if n == 0 {
                ReadAction::Stop
            } else {
                ReadAction::Send(
                    vstd::slice::slice_to_vec(vstd::slice::slice_subrange(inbuf, 0, n)),
                )
            }
        },
    }
}

/// After a chunk was put on the channel: go on reading, or stop if the other
/// end is gone.
pub fn after_read_sent(delivered: bool) -> (action: ReadAction)
    ensures
        action == if delivered {
            ReadAction::Read
        } else {
            ReadAction::Stop
        },
{
    if delivered {
        ReadAction::Read
    } else {
        ReadAction::Stop
    }
}

/// What the relaying task does next.
pub enum RelayAction {
    /// Wait for the next chunk.
    Receive,
    /// Relay these bytes.
    Send(Vec<u8>),
    /// Stop.
    Stop,
}

/// The relaying task.
pub struct StdinRelay {
    escape: Option<EscapeSequence>,
    exit: bool,
}

/// The state of the relaying task.
#[verifier::ext_equal]
pub struct RelayState {
    /// The escape sequence, if there is one, and how far it is matched.
    pub escape: Option<Matcher>,
    /// The sequence is complete; the task stops once what it let through is
    /// relayed.
    pub exit: bool,
}

impl View for StdinRelay {
    type V = RelayState;

    closed spec fn view(&self) -> RelayState {
        RelayState {
            escape: match self.escape {
                Some(e) => Some(e@),
                None => None,
            },
            exit: self.exit,
        }
    }
}

impl RelayState {
    /// The task can deal with `chunk`.
    pub open spec fn accepts(self, chunk: Seq<u8>) -> bool {
        self.escape matches Some(m) ==> m.accepts(chunk)
    }

    /// The state after `chunk`.
    pub open spec fn after(self, chunk: Seq<u8>) -> RelayState {
        match self.escape {
            Some(m) => RelayState { escape: Some(m.run(chunk).next), exit: m.run(chunk).exit },
            None => RelayState { escape: None, exit: false },
        }
    }

    /// What is relayed of `chunk`: all of it if there is no escape sequence;
    /// otherwise what the filter lets through, and no message at all if that
    /// is nothing.
    pub open spec fn relayed(self, chunk: Seq<u8>) -> Option<Seq<u8>> {
        match self.escape {
            Some(m) => if m.run(chunk).out.len() > 0 {
                Some(m.run(chunk).out)
            } else {
                None
            },
            None => Some(chunk),
        }
    }
}

impl StdinRelay {
    /// What holds of every relaying task between events.
    pub closed spec fn well_formed(&self) -> bool {
        self.escape matches Some(e) ==> e.well_formed()
    }

    /// A task that has relayed nothing yet.
    pub fn new(escape: Option<EscapeSequence>) -> (relay: Self)
        requires
            escape matches Some(e) ==> e.well_formed(),
        ensures
            relay.well_formed(),
            relay@.exit == false,
            match escape {
                Some(e) => relay@.escape == Some(e@),
                None => relay@.escape is None,
            },
    {
        StdinRelay { escape, exit: false }
    }

    /// Whether [`StdinRelay::after_received`] can deal with `inbuf`.
    pub fn accepts(&self, inbuf: &[u8]) -> (accepted: bool)
        requires
            self.well_formed(),
        ensures
            accepted == self@.accepts(inbuf@),
    {
        match &self.escape {
            Some(escape) => escape.accepts(inbuf),
            None => true,
        }
    }

    /// After a chunk was received, or the channel was found closed.
    pub fn after_received(&mut self, received: Option<Vec<u8>>) -> (action: RelayAction)
        requires
            old(self).well_formed(),
            received matches Some(inbuf) ==> old(self)@.accepts(inbuf@),
        ensures
            final(self).well_formed(),
            match received {
                None => final(self)@ == old(self)@ && action == RelayAction::Stop,
                Some(inbuf) => {
                    &&& final(self)@ == old(self)@.after(inbuf@)
                    &&& match old(self)@.relayed(inbuf@) {
                        Some(out) => action matches RelayAction::Send(sent) && sent@ == out,
                        None => action == if final(self)@.exit {
                            RelayAction::Stop
                        } else {
                            RelayAction::Receive
                        },
                    }
                },
            },
    {
        match received {
            None => RelayAction::Stop,
            Some(inbuf) => {
                if let Some(esc_sequence) = &mut self.escape {
                    // process potential matches of our escape sequence to
                    // determine whether we should exit the loop
                    let (outbuf, exit) = esc_sequence.process(inbuf);
                    self.exit = exit;
                    // send what we have, even if we're about to exit
                    if outbuf.len() > 0 {
                        RelayAction::Send(outbuf)
                    } else if exit {
                        RelayAction::Stop
                    } else {
                        RelayAction::Receive
                    }
                } else {
                    self.exit = false;
                    RelayAction::Send(inbuf)
                }
            },
        }
    }

    /// After a chunk was relayed. If the channel is closed there is no point
    /// in going on; nor is there once the sequence is complete.
    pub fn after_sent(&self, delivered: bool) -> (action: RelayAction)
        ensures
            action == if !delivered || self@.exit {
                RelayAction::Stop
            } else {
                RelayAction::Receive
            },
    {
        if !delivered || self.exit {
            RelayAction::Stop
        } else {
            RelayAction::Receive
        }
    }
}

/// Without an escape sequence every chunk can be dealt with, is relayed as it
/// is, and does not end the task. With one, the filter alone says what can be
/// dealt with, what is relayed and when the task ends; a chunk of which nothing
/// is let through is no message.
pub proof fn law_relay_of_one_chunk(state: RelayState, chunk: Seq<u8>)
    ensures
        state.escape is None ==> {
            &&& state.accepts(chunk)
            &&& state.relayed(chunk) == Some(chunk)
            &&& state.after(chunk).escape is None
            &&& !state.after(chunk).exit
        },
        state.escape matches Some(m) ==> {
            &&& state.accepts(chunk) <==> m.accepts(chunk)
            &&& state.relayed(chunk) is None <==> m.run(chunk).out.len() == 0
            &&& state.relayed(chunk) matches Some(out) ==> out == m.run(chunk).out
            &&& state.after(chunk).escape == Some(m.run(chunk).next)
            &&& state.after(chunk).exit <==> m.run(chunk).exit
        },
{
}

/// What the relaying task sends, in order, when it receives `chunks` and every
/// message is delivered: it stops once the sequence is complete.
pub open spec fn relayed_messages(state: RelayState, chunks: Seq<Seq<u8>>) -> Seq<Seq<u8>>
    decreases chunks.len(),
{
    if chunks.len() == 0 {
        seq![]
    } else {
        let here = match state.relayed(chunks[0]) {
            Some(out) => seq![out],
            None => seq![],
        };
        let next = state.after(chunks[0]);
        if next.exit {
            here
        } else {
            here + relayed_messages(next, chunks.skip(1))
        }
    }
}

/// The relaying task stops, by itself, while it receives `chunks`.
pub open spec fn relay_stops(state: RelayState, chunks: Seq<Seq<u8>>) -> bool
    decreases chunks.len(),
{
    chunks.len() > 0 && (state.after(chunks[0]).exit || relay_stops(
        state.after(chunks[0]),
        chunks.skip(1),
    ))
}

/// With an escape sequence, what the task sends adds up to what the filter
/// lets through of everything typed, however it was cut into chunks; no message
/// is empty; and the task stops exactly if the sequence is completed.
pub proof fn law_relay_is_the_filter(state: RelayState, chunks: Seq<Seq<u8>>)
    requires
        state.escape is Some,
    ensures
        join(relayed_messages(state, chunks)) == state.escape->0.run(join(chunks)).out,
        relay_stops(state, chunks) <==> state.escape->0.run(join(chunks)).exit,
        forall|i: int|
            0 <= i < relayed_messages(state, chunks).len() ==> #[trigger] relayed_messages(
                state,
                chunks,
            )[i].len() > 0,
{
    law_calls_are_one_call(state.escape->0, chunks);
    lemma_relay_follows_calls(state, chunks);
}

proof fn lemma_relay_follows_calls(state: RelayState, chunks: Seq<Seq<u8>>)
    requires
        state.escape is Some,
    ensures
        join(relayed_messages(state, chunks)) == run_calls(state.escape->0, chunks).out,
        relay_stops(state, chunks) <==> run_calls(state.escape->0, chunks).exit,
        forall|i: int|
            0 <= i < relayed_messages(state, chunks).len() ==> #[trigger] relayed_messages(
                state,
                chunks,
            )[i].len() > 0,
    decreases chunks.len(),
{
    if chunks.len() > 0 {
        let first = state.escape->0.run(chunks[0]);
        let next = state.after(chunks[0]);
        let sent = relayed_messages(state, chunks);
        let later = if next.exit {
            seq![]
        } else {
            relayed_messages(next, chunks.skip(1))
        };
        if !next.exit {
            lemma_relay_follows_calls(next, chunks.skip(1));
        }
        if first.out.len() > 0 {
            assert(sent =~= seq![first.out] + later);
            assert(sent.skip(1) =~= later);
            assert(join(sent) == first.out + join(later));
            assert forall|i: int| 0 <= i < sent.len() implies #[trigger] sent[i].len() > 0 by {
                if i > 0 {
                    assert(sent[i] == later[i - 1]);
                }
            }
        } else {
            assert(sent =~= later);
            assert(first.out + join(later) =~= join(later));
        }
        assert(first.out + Seq::<u8>::empty() =~= first.out);
    }
}

/// Without an escape sequence every chunk is relayed as it is, and the task
/// never stops by itself.
pub proof fn law_relay_without_escape(state: RelayState, chunks: Seq<Seq<u8>>)
    requires
        state.escape is None,
    ensures
        relayed_messages(state, chunks) == chunks,
        !relay_stops(state, chunks),
    decreases chunks.len(),
{
    if chunks.len() > 0 {
        law_relay_without_escape(state.after(chunks[0]), chunks.skip(1));
        assert(seq![chunks[0]] + chunks.skip(1) =~= chunks);
    }
}

/// One read: the buffer afterwards, and what came of it.
pub struct Reading {
    pub inbuf: Seq<u8>,
    pub outcome: ReadOutcome,
}

/// The reads are into a buffer of the size that the reading task uses.
pub open spec fn are_readings(readings: Seq<Reading>) -> bool {
    forall|i: int|
        0 <= i < readings.len() ==> {
            let reading = #[trigger] readings[i];
            &&& reading.inbuf.len() == READ_BUFFER_LEN
            &&& reading.outcome matches ReadOutcome::Read(n) ==> n <= READ_BUFFER_LEN
        }
}

/// What the reading task passes on, in order, if everything is delivered.
pub open spec fn chunks_passed_on(readings: Seq<Reading>) -> Seq<Seq<u8>>
    decreases readings.len(),
{
    if readings.len() == 0 {
        seq![]
    } else {
        match chunk_read(readings[0].inbuf, readings[0].outcome) {
            Some(chunk) => seq![chunk] + chunks_passed_on(readings.skip(1)),
            None => seq![],
        }
    }
}

/// All bytes that standard input delivers before it ends or fails.
pub open spec fn delivered_by_stdin(readings: Seq<Reading>) -> Seq<u8>
    decreases readings.len(),
{
    if readings.len() == 0 {
        seq![]
    } else {
        match readings[0].outcome {
            ReadOutcome::Read(n) if n > 0 => readings[0].inbuf.take(n as int)
                + delivered_by_stdin(readings.skip(1)),
            _ => seq![],
        }
    }
}

proof fn lemma_reading(readings: Seq<Reading>)
    requires
        are_readings(readings),
    ensures
        join(chunks_passed_on(readings)) == delivered_by_stdin(readings),
        forall|i: int|
            0 <= i < chunks_passed_on(readings).len() ==> 1 <= #[trigger] chunks_passed_on(
                readings,
            )[i].len() <= READ_BUFFER_LEN,
    decreases readings.len(),
{
    if readings.len() > 0 {
        let chunks = chunks_passed_on(readings);
        let rest = readings.skip(1);
        assert forall|i: int| 0 <= i < rest.len() implies {
            let reading = #[trigger] rest[i];
            &&& reading.inbuf.len() == READ_BUFFER_LEN
            &&& reading.outcome matches ReadOutcome::Read(n) ==> n <= READ_BUFFER_LEN
        } by {
            assert(rest[i] == readings[i + 1]);
        }
        lemma_reading(rest);
        if let Some(chunk) = chunk_read(readings[0].inbuf, readings[0].outcome) {
            let later = chunks_passed_on(rest);
            assert(chunks =~= seq![chunk] + later);
            assert(chunks.skip(1) =~= later);
            assert forall|i: int| 0 <= i < chunks.len() implies 1 <= #[trigger] chunks[i].len()
                <= READ_BUFFER_LEN by {
                if i > 0 {
                    assert(chunks[i] == later[i - 1]);
                }
            }
        }
    }
}

/// Without an escape sequence, what the two tasks make of standard input is
/// exactly what it delivers, in chunks of one byte to [`READ_BUFFER_LEN`]; and
/// they do not stop before it ends.
pub proof fn law_input_arrives_unchanged(readings: Seq<Reading>, state: RelayState)
    requires
        are_readings(readings),
        state.escape is None,
    ensures
        ({
            let messages = relayed_messages(state, chunks_passed_on(readings));
            &&& join(messages) == delivered_by_stdin(readings)
            &&& forall|i: int|
                0 <= i < messages.len() ==> 1 <= #[trigger] messages[i].len() <= READ_BUFFER_LEN
            &&& !relay_stops(state, chunks_passed_on(readings))
        }),
{
    lemma_reading(readings);
    law_relay_without_escape(state, chunks_passed_on(readings));
}

/// With an escape sequence, it is what the filter lets through of that.
pub proof fn law_input_arrives_filtered(readings: Seq<Reading>, state: RelayState)
    requires
        are_readings(readings),
        state.escape is Some,
    ensures
        ({
            let chunks = chunks_passed_on(readings);
            let filtered = state.escape->0.run(delivered_by_stdin(readings));
            &&& join(relayed_messages(state, chunks)) == filtered.out
            &&& relay_stops(state, chunks) <==> filtered.exit
        }),
{
    lemma_reading(readings);
    law_relay_is_the_filter(state, chunks_passed_on(readings));
}

} // verus!
