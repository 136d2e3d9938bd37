//! The mathematical model of an escape-sequence filter.
//!
//! The filter watches the bytes that the user types for one particular
//! sequence, and lets everything else through. A [`Matcher`] is its state; one
//! byte takes it to the next state, releases some bytes, and possibly
//! completes the sequence.

use crate::cursor::{is_partial_report, is_report};
use vstd::prelude::*;

verus! {

/// `\r`.
pub const CARRIAGE_RETURN: u8 = 0x0d;

/// `\n`.
pub const LINE_FEED: u8 = 0x0a;

/// The state of the filter.
#[verifier::ext_equal]
pub struct Matcher {
    /// The sequence that is looked for.
    pub bytes: Seq<u8>,
    /// How many of its leading bytes are let through while it is matched.
    pub prefix: nat,
    /// How many of its leading bytes have been matched.
    pub pos: nat,
    /// Bytes kept back because they may be a Cursor Position Report.
    pub held: Seq<u8>,
}

/// What some input makes of a [`Matcher`].
#[verifier::ext_equal]
pub struct Progress {
    /// The state afterwards.
    pub next: Matcher,
    /// The bytes that are let through, in order.
    pub out: Seq<u8>,
    /// The sequence was completed.
    pub exit: bool,
    /// How many bytes were looked at; those after a completed sequence are not.
    pub used: nat,
    /// Bytes that were looked at, but turned out to lie behind the completed
    /// sequence.
    pub dropped: Seq<u8>,
}

/// What setting Cursor Position Reports apart makes of a byte.
#[verifier::ext_equal]
pub struct SetApart {
    /// The byte is taken for a part of a report.
    pub swallowed: bool,
    /// What is kept back now.
    pub held: Seq<u8>,
    /// What was kept back and is not any more: a whole report, or bytes that
    /// turned out to be none.
    pub released: Seq<u8>,
}

/// Carriage return or line feed.
pub open spec fn is_newline(b: u8) -> bool {
    b == CARRIAGE_RETURN || b == LINE_FEED
}

/// `text` ends in the first `k` of `bytes`.
pub open spec fn ends_in(bytes: Seq<u8>, text: Seq<u8>, k: nat) -> bool {
    k <= bytes.len() && bytes.take(k as int).is_suffix_of(text)
}

/// The largest number, `most` at the most, of leading `bytes` that `text` ends
/// in.
pub open spec fn longest_upto(bytes: Seq<u8>, text: Seq<u8>, most: nat) -> nat
    decreases most,
{
    if most == 0 || ends_in(bytes, text, most) {
        most
    } else {
        longest_upto(bytes, text, (most - 1) as nat)
    }
}

/// The largest number of leading `bytes` that `text` ends in.
pub open spec fn longest(bytes: Seq<u8>, text: Seq<u8>) -> nat {
    longest_upto(bytes, text, bytes.len())
}

impl Matcher {
    /// A filter that has seen nothing yet.
    pub open spec fn fresh(bytes: Seq<u8>, prefix: nat) -> Matcher {
        Matcher { bytes, prefix, pos: 0, held: seq![] }
    }

    /// What holds of the filter between any two bytes.
    pub open spec fn wf(self) -> bool {
        &&& self.prefix <= self.bytes.len()
        &&& self.pos <= self.bytes.len()
        &&& self.held.len() > 0 ==> {
            &&& self.watching()
            &&& is_partial_report(self.held)
            &&& !is_report(self.held)
        }
    }

    /// The sequence is not complete, so there is a byte to wait for.
    pub open spec fn live(self) -> bool {
        self.pos < self.bytes.len()
    }

    /// The byte matched last is a newline within the prefix. It has been let
    /// through, so a Cursor Position Report may come back in answer to it.
    pub open spec fn watching(self) -> bool {
        0 < self.pos <= self.prefix && is_newline(self.bytes[self.pos - 1])
    }

    /// `c` is taken for a byte of a Cursor Position Report, and so is not
    /// compared with the sequence, at least for now.
    pub open spec fn swallows(self, c: u8) -> bool {
        self.watching() && is_partial_report(self.held.push(c))
    }

    /// Bytes received and neither let through nor given up.
    pub open spec fn pending(self) -> Seq<u8> {
        self.withheld() + self.held
    }

    /// The matched bytes that lie beyond the prefix.
    pub open spec fn withheld(self) -> Seq<u8> {
        if self.pos > self.prefix {
            self.bytes.subrange(self.prefix as int, self.pos as int)
        } else {
            seq![]
        }
    }

    /// What a completed sequence keeps from being sent: all of it but the bytes
    /// already let through, which are the prefix, or all but the last byte if
    /// the prefix is the whole sequence.
    pub open spec fn suppressed(self) -> Seq<u8> {
        if self.prefix < self.bytes.len() {
            self.bytes.skip(self.prefix as int)
        } else {
            seq![self.bytes.last()]
        }
    }

    /// The filter can deal with `c`. It cannot once the sequence is complete.
    pub open spec fn accepts_byte(self, c: u8) -> bool {
        self.swallows(c) || self.live()
    }

    /// The filter can deal with every byte of `input` that it gets to.
    pub open spec fn accepts(self, input: Seq<u8>) -> bool
        decreases input.len(),
    {
        input.len() > 0 ==> {
            &&& self.accepts_byte(input[0])
            &&& self.step(input[0]).exit || self.step(input[0]).next.accepts(input.skip(1))
        }
    }

    /// Sets Cursor Position Reports apart. As long as `c` continues one, the
    /// bytes are kept back, and the whole report is released at its end;
    /// otherwise what was kept back is no report, and is released.
    pub open spec fn set_apart(self, c: u8) -> SetApart {
        let grown = self.held.push(c);
        if !self.swallows(c) {
            SetApart { swallowed: false, held: seq![], released: self.held }
        } else if is_report(grown) {
            SetApart { swallowed: true, held: seq![], released: grown }
        } else {
            SetApart { swallowed: true, held: grown, released: seq![] }
        }
    }

    /// How much of the sequence is matched once `c` has been compared with it:
    /// one byte more, or else the longest new match that the bytes matched so
    /// far and `c` make together.
    pub open spec fn next_pos(self, c: u8) -> nat {
        longest(self.bytes, self.bytes.take(self.pos as int).push(c))
    }

    /// The effect of comparing one byte with the sequence. What is no longer
    /// part of a match is let through, and so is the prefix.
    pub open spec fn compare(self, c: u8) -> Progress {
        let next = Matcher { pos: self.next_pos(c), ..self };
        let known = self.withheld().push(c);
        let exit = !next.live();
        Progress {
            next,
            out: if exit {
                seq![]
            } else {
                known.take(known.len() - next.withheld().len())
            },
            exit,
            used: 1,
            dropped: seq![],
        }
    }

    /// The effect of comparing all of `s`, until the sequence is complete.
    pub open spec fn compare_all(self, s: Seq<u8>) -> Progress
        decreases s.len(),
    {
        if s.len() == 0 {
            Progress { next: self, out: seq![], exit: false, used: 0, dropped: seq![] }
        } else {
            let first = self.compare(s[0]);
            if first.exit {
                Progress { dropped: s.skip(1), ..first }
            } else {
                first.before(first.next.compare_all(s.skip(1)))
            }
        }
    }

    /// The effect of one byte of input. A byte of a Cursor Position Report is
    /// set apart; any other is compared with the sequence, after what was taken
    /// for a report in vain.
    pub open spec fn step(self, c: u8) -> Progress {
        let apart = self.set_apart(c);
        let rest = Matcher { held: apart.held, ..self };
        if apart.swallowed {
            Progress {
                next: rest,
                out: apart.released,
                exit: false,
                used: 1,
                dropped: seq![],
            }
        } else {
            Progress { used: 1, ..rest.compare_all(apart.released.push(c)) }
        }
    }

    /// The effect of `input`, byte by byte until the sequence is complete.
    pub open spec fn run(self, input: Seq<u8>) -> Progress
        decreases input.len(),
    {
        if input.len() == 0 {
            Progress { next: self, out: seq![], exit: false, used: 0, dropped: seq![] }
        } else {
            let first = self.step(input[0]);
            if first.exit {
                first
            } else {
                first.before(first.next.run(input.skip(1)))
            }
        }
    }
}

impl Progress {
    /// Two stretches of input, one after the other.
    pub open spec fn before(self, later: Progress) -> Progress {
        Progress {
            next: later.next,
            out: self.out + later.out,
            exit: later.exit,
            used: self.used + later.used,
            dropped: later.dropped,
        }
    }
}

/// `text` ends in [`longest_upto`] of the sequence, and in no more of it.
pub proof fn lemma_longest_upto(bytes: Seq<u8>, text: Seq<u8>, most: nat)
    requires
        most <= bytes.len(),
    ensures
        longest_upto(bytes, text, most) <= most,
        ends_in(bytes, text, longest_upto(bytes, text, most)),
        forall|j: nat|
            longest_upto(bytes, text, most) < j <= most ==> !#[trigger] ends_in(bytes, text, j),
    decreases most,
{
    if most == 0 {
        assert(bytes.take(0) =~= text.subrange(text.len() as int, text.len() as int));
    } else if !ends_in(bytes, text, most) {
        lemma_longest_upto(bytes, text, (most - 1) as nat);
    }
}

/// The largest number is the only one of its kind.
pub proof fn lemma_longest_is(bytes: Seq<u8>, text: Seq<u8>, k: nat)
    requires
        ends_in(bytes, text, k),
        forall|j: nat| k < j <= bytes.len() ==> !#[trigger] ends_in(bytes, text, j),
    ensures
        longest(bytes, text) == k,
{
    lemma_longest_upto(bytes, text, bytes.len());
    let l = longest(bytes, text);
    if l > k {
        assert(ends_in(bytes, text, l));
    }
}

/// What `text` ends in, byte by byte.
pub proof fn lemma_ends_in_bytes(bytes: Seq<u8>, text: Seq<u8>, k: nat)
    ensures
        ends_in(bytes, text, k) <==> {
            &&& k <= bytes.len()
            &&& k <= text.len()
            &&& forall|i: int| 0 <= i < k ==> #[trigger] bytes[i] == text[text.len() - k + i]
        },
{
    if k <= bytes.len() && k <= text.len() {
        let tail = text.subrange(text.len() - k, text.len() as int);
        if ends_in(bytes, text, k) {
            assert forall|i: int| 0 <= i < k implies #[trigger] bytes[i] == text[text.len() - k
                + i] by {
                assert(bytes.take(k as int)[i] == tail[i]);
            }
        }
        if forall|i: int| 0 <= i < k ==> #[trigger] bytes[i] == text[text.len() - k + i] {
            assert(bytes.take(k as int) =~= tail);
        }
    }
}

/// Nothing longer than `text` can be its end.
pub proof fn lemma_longest_fits(bytes: Seq<u8>, text: Seq<u8>)
    ensures
        longest(bytes, text) <= bytes.len(),
        longest(bytes, text) <= text.len(),
        ends_in(bytes, text, longest(bytes, text)),
{
    lemma_longest_upto(bytes, text, bytes.len());
}

/// A byte that continues the match makes it one longer.
pub proof fn lemma_next_pos_of_match(m: Matcher)
    requires
        m.live(),
    ensures
        m.next_pos(m.bytes[m.pos as int]) == m.pos + 1,
{
    let c = m.bytes[m.pos as int];
    let text = m.bytes.take(m.pos as int).push(c);
    let k = (m.pos + 1) as nat;
    lemma_ends_in_bytes(m.bytes, text, k);
    assert(ends_in(m.bytes, text, k));
    assert forall|j: nat| k < j <= m.bytes.len() implies !#[trigger] ends_in(
        m.bytes,
        text,
        j,
    ) by {
        lemma_ends_in_bytes(m.bytes, text, j);
    }
    lemma_longest_is(m.bytes, text, k);
}

/// A match grows by one byte at the most, and its last byte is the one that was
/// compared.
pub proof fn lemma_next_pos_bounds(m: Matcher, c: u8)
    requires
        m.live(),
    ensures
        m.next_pos(c) <= m.pos + 1,
        m.next_pos(c) <= m.bytes.len(),
        m.next_pos(c) > 0 ==> m.bytes[m.next_pos(c) - 1] == c,
{
    let text = m.bytes.take(m.pos as int).push(c);
    lemma_longest_fits(m.bytes, text);
    lemma_ends_in_bytes(m.bytes, text, m.next_pos(c));
}

} // verus!
