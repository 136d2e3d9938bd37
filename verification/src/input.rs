//! Standard input: recognising the escape sequence, and relaying the rest.

use crate::cursor::{lemma_complete_iff_final_byte, regex_text, CAPITAL_R, CURSOR_PATTERN};
use crate::laws::law_live_accepts_everything;
use crate::matcher::{
    ends_in, is_newline, lemma_ends_in_bytes, lemma_longest_upto, lemma_next_pos_bounds,
    lemma_next_pos_of_match, longest_upto, Matcher, CARRIAGE_RETURN, LINE_FEED,
};
use regex::bytes::Regex;
use vstd::prelude::*;

verus! {

/// Why an [`EscapeSequence`] cannot be made.
#[derive(Debug)]
pub enum Error {
    /// The prefix length is greater than the length of the escape string:
    /// both are given.
    PrefixTooLong(usize, usize),
    /// The regular expression for Cursor Position Reports does not compile.
    Regex(regex::Error),
}

/// Stateful abstraction for filtering input bytes to determine if the given
/// escape sequence has been detected, and what bytes are ready to be sent
/// for normal processing (i.e. aren't an incomplete match of the escape
/// sequence).
pub struct EscapeSequence {
    bytes: Vec<u8>,
    prefix_length: usize,
    // The following persist between calls of `process`, because the bytes that
    // are looked for likely won't all arrive at once.
    //
    // Position of the next potential match in the escape sequence.
    esc_pos: usize,
    // Characters that may be part of an ANSI Cursor Position Report. Without
    // setting these apart, an escape sequence with a newline before its
    // `prefix_length` could not be typed into a shell that asks for a report
    // on each newline.
    ansi_curs_check: Vec<u8>,
    // Compiled once, at construction.
    ansi_curs_pat: Regex,
}

impl View for EscapeSequence {
    type V = Matcher;

    closed spec fn view(&self) -> Matcher {
        Matcher {
            bytes: self.bytes@,
            prefix: self.prefix_length as nat,
            pos: self.esc_pos as nat,
            held: self.ansi_curs_check@,
        }
    }
}

/// Appends all of `more` to `buf`.
fn append(buf: &mut Vec<u8>, more: &[u8])
    ensures
        final(buf)@ == old(buf)@ + more@,
{
    buf.extend_from_slice(more);
    assert(buf@ =~= old(buf)@ + more@);
}

impl EscapeSequence {
    /// The pattern in use is the one for Cursor Position Reports.
    pub closed spec fn knows_reports(&self) -> bool {
        regex_text(self.ansi_curs_pat) == CURSOR_PATTERN@
    }

    /// What holds of every filter between calls.
    pub open spec fn well_formed(&self) -> bool {
        self.knows_reports() && self@.wf()
    }

    /// If the given `bytes` sequence is ever fed through any successive or
    /// individual calls to [`EscapeSequence::process`], the client should exit.
    ///
    /// `prefix_length` is the number of bytes from the beginning of `bytes`
    /// that should be forwarded through prior to buffering inputs until a
    /// mismatch is encountered.
    ///
    /// For example, to mimic the enter-tilde-dot escape sequence behavior
    /// from SSH, such that the newline gets sent to the remote machine
    /// immediately while still continuing to check for the rest of the
    /// sequence and not send a subsequent `~` unless it's followed by
    /// something other than a `.`, you would construct this with `"\n~."` and
    /// a prefix length of 1.
    pub fn new(bytes: Vec<u8>, prefix_length: usize) -> (made: Result<Self, Error>)
        ensures
            made is Ok <==> prefix_length <= bytes.len(),
            made matches Ok(s) ==> s.well_formed() && s@ == Matcher::fresh(
                bytes@,
                prefix_length as nat,
            ),
            made matches Ok(s) ==> {
                &&& s@.bytes == bytes@
                &&& s@.prefix == prefix_length
                &&& s@.pos == 0
                &&& s@.held.len() == 0
            },
            made matches Err(e) ==> e == Error::PrefixTooLong(prefix_length, bytes.len()),
    {
        let escape_len: usize = bytes.len();
        if prefix_length > escape_len {
            return Err(Error::PrefixTooLong(prefix_length, escape_len));
        }
        match Regex::new(CURSOR_PATTERN) {
            Ok(ansi_curs_pat) => {
                let s = EscapeSequence {
                    bytes,
                    prefix_length,
                    esc_pos: 0,
                    ansi_curs_check: Vec::new(),
                    ansi_curs_pat,
                };
                assert(s@ == Matcher::fresh(bytes@, prefix_length as nat));
                Ok(s)
            },
            Err(e) => Err(Error::Regex(e)),
        }
    }

    // Ignores the ANSI escape sequence for the Cursor Position Report sent by
    // xterm-likes in response to shells requesting one after each newline.
    // Returns true if further processing of character `c` shouldn't apply,
    // i.e. a partial or complete match of the report is found. What is no
    // longer kept back is put into `outbuf`.
    fn ignore_ansi_cpr_seq(&mut self, outbuf: &mut Vec<u8>, c: u8) -> (ignored: bool)
        requires
            old(self).well_formed(),
        ensures
            final(self).well_formed(),
            ignored == old(self)@.set_apart(c).swallowed,
            final(self)@ == (Matcher { held: old(self)@.set_apart(c).held, ..old(self)@ }),
            final(outbuf)@ == old(outbuf)@ + old(self)@.set_apart(c).released,
    {
        if self.esc_pos > 0 && self.esc_pos <= self.prefix_length && is_newline_byte(
            self.bytes[self.esc_pos - 1],
        ) {
            self.ansi_curs_check.push(c);
            let ghost grown = old(self)@.held.push(c);
            assert(self.ansi_curs_check@ == grown);
            if self.ansi_curs_pat.is_match(&self.ansi_curs_check) {
                proof {
                    lemma_complete_iff_final_byte(grown);
                }
                // end of the report?
                if c == CAPITAL_R {
                    append(outbuf, &self.ansi_curs_check);
                    self.ansi_curs_check.clear();
                }
                assert(self@.held =~= old(self)@.set_apart(c).held);
                assert(outbuf@ =~= old(outbuf)@ + old(self)@.set_apart(c).released);
                return true;
            } else {
                // `c` is still to be compared with the escape sequence
                self.ansi_curs_check.pop();
                assert(self.ansi_curs_check@ =~= old(self)@.held);
                append(outbuf, &self.ansi_curs_check);
                self.ansi_curs_check.clear();
            }
        }
        assert(self@.held =~= seq![]);
        assert(outbuf@ =~= old(outbuf)@ + old(self)@.held);
        false
    }

    // Whether the bytes matched so far, followed by `c`, end in the first `k`
    // bytes of the escape sequence.
    fn begins_again(&self, c: u8, k: usize) -> (begins: bool)
        requires
            0 < k <= self@.pos,
            self@.wf(),
        ensures
            begins == ends_in(self@.bytes, self@.bytes.take(self@.pos as int).push(c), k as nat),
    {
        let ghost text = self@.bytes.take(self@.pos as int).push(c);
        proof {
            lemma_ends_in_bytes(self@.bytes, text, k as nat);
        }
        if self.bytes[k - 1] != c {
            assert(self@.bytes[k - 1] != text[text.len() - k + (k - 1)]);
            return false;
        }
        let offset: usize = self.esc_pos - (k - 1);
        let mut i: usize = 0;
        while i < k - 1
            invariant
                0 < k <= self.esc_pos <= self.bytes.len(),
                i <= k - 1,
                offset == self.esc_pos - (k - 1),
                text == self.bytes@.take(self.esc_pos as int).push(c),
                forall|j: int|
                    0 <= j < i ==> #[trigger] self.bytes@[j] == text[text.len() - k + j],
                self@.bytes == self.bytes@,
                self@.pos == self.esc_pos,
                ends_in(self@.bytes, text, k as nat) <==> {
                    &&& k <= self@.bytes.len()
                    &&& k <= text.len()
                    &&& forall|j: int|
                        0 <= j < k ==> #[trigger] self@.bytes[j] == text[text.len() - k + j]
                },
            decreases k - i,
        {
            assert(text[text.len() - k + i] == self.bytes@[offset + i]);
            if self.bytes[i] != self.bytes[offset + i] {
                assert(self@.bytes[i as int] != text[text.len() - k + i]);
                return false;
            }
            i = i + 1;
        }
        assert(text[text.len() - k + (k - 1)] == c);
        true
    }

    // How much of the escape sequence is matched once `c` has been compared.
    fn next_pos(&self, c: u8) -> (pos: usize)
        requires
            self@.wf(),
            self@.live(),
        ensures
            pos == self@.next_pos(c),
    {
        let ghost bytes = self@.bytes;
        let ghost text = bytes.take(self@.pos as int).push(c);
        if c == self.bytes[self.esc_pos] {
            proof {
                lemma_next_pos_of_match(self@);
            }
            let escape_len: usize = self.bytes.len();
            assert(self.esc_pos < escape_len);
            return self.esc_pos + 1;
        }
        // they bailed from the sequence, but may have begun it anew
        let mut k: usize = self.esc_pos;
        proof {
            lemma_next_pos_bounds(self@, c);
            lemma_longest_upto(bytes, text, bytes.len());
            lemma_ends_in_bytes(bytes, text, (self@.pos + 1) as nat);
            assert(text[text.len() - 1] == c);
            assert(!ends_in(bytes, text, (self@.pos + 1) as nat));
            lemma_skip_longer(bytes, text, bytes.len(), k as nat);
        }
        while k > 0
            invariant
                self@.wf(),
                self@.live(),
                k <= self@.pos,
                bytes == self@.bytes,
                text == bytes.take(self@.pos as int).push(c),
                self@.next_pos(c) == longest_upto(bytes, text, k as nat),
            decreases k,
        {
            if self.begins_again(c, k) {
                return k;
            }
            k = k - 1;
        }
        0
    }

    // Compares `c` with the escape sequence, and puts into `outbuf` what is let
    // through. Returns true if the sequence is complete.
    fn compare(&mut self, c: u8, outbuf: &mut Vec<u8>) -> (exit: bool)
        requires
            old(self).well_formed(),
            old(self)@.live(),
            old(self)@.held.len() == 0,
        ensures
            final(self).well_formed(),
            final(self)@ == old(self)@.compare(c).next,
            final(outbuf)@ == old(outbuf)@ + old(self)@.compare(c).out,
            exit == old(self)@.compare(c).exit,
    {
        let ghost start = self@;
        let escape_len: usize = self.bytes.len();
        let esc_pos: usize = self.esc_pos;
        let next: usize = self.next_pos(c);
        proof {
            lemma_next_pos_bounds(start, c);
        }
        self.esc_pos = next;
        assert(self@ == start.compare(c).next);
        if next == escape_len {
            // exit on completed escape string
            assert(outbuf@ =~= old(outbuf)@ + start.compare(c).out);
            return true;
        }
        let withheld: usize = if esc_pos > self.prefix_length {
            esc_pos - self.prefix_length
        } else {
            0
        };
        let kept: usize = if next > self.prefix_length {
            next - self.prefix_length
        } else {
            0
        };
        let ghost known = start.withheld().push(c);
        assert(kept <= withheld + 1);
        if kept == 0 {
            // feed everything that matched so far through, and `c` itself
            append(
                outbuf,
                vstd::slice::slice_subrange(
                    self.bytes.as_slice(),
                    self.prefix_length,
                    self.prefix_length + withheld,
                ),
            );
            outbuf.push(c);
            assert(outbuf@ =~= old(outbuf)@ + known);
            assert(known.take(known.len() as int) =~= known);
        } else {
            // the last `kept` bytes are part of a match, the ones before are not
            let released: usize = withheld - (kept - 1);
            append(
                outbuf,
                vstd::slice::slice_subrange(
                    self.bytes.as_slice(),
                    self.prefix_length,
                    self.prefix_length + released,
                ),
            );
            assert(known.take(released as int) =~= start.bytes.subrange(
                start.prefix as int,
                start.prefix + released,
            ));
        }
        false
    }

    // Compares all of `s` with the escape sequence, until it is complete.
    fn compare_all(&mut self, s: &Vec<u8>, outbuf: &mut Vec<u8>) -> (exit: bool)
        requires
            old(self).well_formed(),
            old(self)@.live(),
            old(self)@.held.len() == 0,
        ensures
            final(self).well_formed(),
            final(self)@ == old(self)@.compare_all(s@).next,
            final(outbuf)@ == old(outbuf)@ + old(self)@.compare_all(s@).out,
            exit == old(self)@.compare_all(s@).exit,
    {
        let ghost start = self@;
        let ghost out_start = outbuf@;
        let mut i: usize = 0;
        assert(s@.skip(0) =~= s@);
        while i < s.len()
            invariant
                i <= s.len(),
                start == old(self)@,
                out_start == old(outbuf)@,
                self.well_formed(),
                self@.live(),
                self@.held.len() == 0,
                start.compare_all(s@).next == self@.compare_all(s@.skip(i as int)).next,
                out_start + start.compare_all(s@).out == outbuf@ + self@.compare_all(
                    s@.skip(i as int),
                ).out,
                start.compare_all(s@).exit == self@.compare_all(s@.skip(i as int)).exit,
            decreases s.len() - i,
        {
            let ghost before = self@;
            let ghost out_before = outbuf@;
            let ghost rest = s@.skip(i as int);
            let c: u8 = s[i];
            assert(rest[0] == c);
            assert(rest.skip(1) =~= s@.skip(i + 1));
            if self.compare(c, outbuf) {
                return true;
            }
            i = i + 1;
            proof {
                let later = self@.compare_all(s@.skip(i as int));
                assert(before.compare_all(rest) == before.compare(c).before(later));
                assert(out_before + (before.compare(c).out + later.out) =~= outbuf@ + later.out);
            }
        }
        assert(s@.skip(i as int).len() == 0);
        assert(outbuf@ + Seq::<u8>::empty() =~= outbuf@);
        false
    }

    /// Whether [`EscapeSequence::process`] can deal with `inbuf`. It cannot if
    /// it would get to a byte after the escape sequence is already complete; an
    /// empty one is from the start.
    pub fn accepts(&self, inbuf: &[u8]) -> (accepted: bool)
        requires
            self.well_formed(),
        ensures
            accepted == self@.accepts(inbuf@),
    {
        if self.esc_pos < self.bytes.len() {
            proof {
                law_live_accepts_everything(self@, inbuf@);
            }
            return true;
        }
        // only bytes of a report can still be dealt with
        let watching: bool = self.esc_pos > 0 && self.esc_pos <= self.prefix_length
            && is_newline_byte(self.bytes[self.esc_pos - 1]);
        let mut held: Vec<u8> = Vec::new();
        append(&mut held, &self.ansi_curs_check);
        assert(held@ =~= self@.held);
        assert(inbuf@.skip(0) =~= inbuf@);
        let ghost mut now = self@;
        let mut i: usize = 0;
        while i < inbuf.len()
            invariant
                i <= inbuf.len(),
                self.well_formed(),
                !now.live(),
                watching == now.watching(),
                now == (Matcher { held: held@, ..self@ }),
                self@.accepts(inbuf@) == now.accepts(inbuf@.skip(i as int)),
            decreases inbuf.len() - i,
        {
            let c: u8 = inbuf[i];
            let ghost grown = held@.push(c);
            assert(inbuf@.skip(i as int)[0] == c);
            assert(inbuf@.skip(i as int).skip(1) =~= inbuf@.skip(i + 1));
            held.push(c);
            if !watching || !self.ansi_curs_pat.is_match(&held) {
                return false;
            }
            proof {
                lemma_complete_iff_final_byte(grown);
            }
            if c == CAPITAL_R {
                held.clear();
            }
            i = i + 1;
            proof {
                now = now.step(c).next;
                assert(now.held =~= held@);
            }
        }
        true
    }

    /// Return the bytes we can safely commit to sending to the terminal, and
    /// determine if the user has entered the escape sequence completely.
    /// Returns true iff the program should exit.
    pub fn process(&mut self, inbuf: Vec<u8>) -> (ret: (Vec<u8>, bool))
        requires
            old(self).well_formed(),
            old(self)@.accepts(inbuf@),
        ensures
            final(self).well_formed(),
            final(self)@ == old(self)@.run(inbuf@).next,
            ret.0@ == old(self)@.run(inbuf@).out,
            ret.1 == old(self)@.run(inbuf@).exit,
    {
        // Put bytes from inbuf to outbuf, but don't send characters in the
        // escape string sequence unless we bail.
        let mut outbuf: Vec<u8> = Vec::with_capacity(inbuf.len());
        let ghost start = self@;
        let mut i: usize = 0;
        assert(inbuf@.skip(0) =~= inbuf@);
        while i < inbuf.len()
            invariant
                i <= inbuf.len(),
                start == old(self)@,
                self.well_formed(),
                self@.accepts(inbuf@.skip(i as int)),
                start.run(inbuf@).next == self@.run(inbuf@.skip(i as int)).next,
                start.run(inbuf@).out == outbuf@ + self@.run(inbuf@.skip(i as int)).out,
                start.run(inbuf@).exit == self@.run(inbuf@.skip(i as int)).exit,
            decreases inbuf.len() - i,
        {
            let c: u8 = inbuf[i];
            let ghost before = self@;
            let ghost out_before = outbuf@;
            let ghost rest = inbuf@.skip(i as int);
            assert(rest[0] == c);
            assert(rest.skip(1) =~= inbuf@.skip(i + 1));
            let mut released: Vec<u8> = Vec::new();
            if self.ignore_ansi_cpr_seq(&mut released, c) {
                assert(released@ =~= before.set_apart(c).released);
                append(&mut outbuf, &released);
            } else {
                // what looked like a report and is none was typed too
                released.push(c);
                assert(released@ =~= before.set_apart(c).released.push(c));
                if self.compare_all(&released, &mut outbuf) {
                    return (outbuf, true);
                }
            }
            assert(self@ == before.step(c).next);
            assert(outbuf@ == out_before + before.step(c).out);
            i = i + 1;
            proof {
                let later = self@.run(inbuf@.skip(i as int));
                assert(before.run(rest) == before.step(c).before(later));
                assert(out_before + (before.step(c).out + later.out) =~= outbuf@ + later.out);
            }
        }
        assert(inbuf@.skip(i as int).len() == 0);
        assert(outbuf@ + Seq::<u8>::empty() =~= outbuf@);
        (outbuf, false)
    }
}

/// Counts that `text` does not end in can be left out of the search.
proof fn lemma_skip_longer(bytes: Seq<u8>, text: Seq<u8>, most: nat, k: nat)
    requires
        k <= most <= bytes.len(),
        forall|j: nat| k < j <= most ==> !#[trigger] ends_in(bytes, text, j),
    ensures
        longest_upto(bytes, text, most) == longest_upto(bytes, text, k),
    decreases most - k,
{
    if k < most {
        lemma_skip_longer(bytes, text, (most - 1) as nat, k);
    }
}

/// Carriage return or line feed.
fn is_newline_byte(b: u8) -> (r: bool)
    ensures
        r == is_newline(b),
        r <==> b == 0x0d || b == 0x0a,
{
    b == CARRIAGE_RETURN || b == LINE_FEED
}

} // verus!
