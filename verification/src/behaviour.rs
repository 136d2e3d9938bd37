//! The escape-sequence filter from the outside: what it makes of what is typed,
//! said of the bytes alone.
//!
//! Everything typed is a row of stretches without a Cursor Position Report
//! where one is due ([`law_plain_typing`]) and of such reports
//! ([`law_report_is_set_apart`]), joined by [`law_one_call_after_the_other`].

use crate::cursor::{
    is_number, is_partial_report, is_report, lemma_beginnings_of_report,
    lemma_nothing_follows_a_report, report, CURSOR_PATTERN,
};
use crate::laws::{
    law_calls_compose, law_conservation, law_exit_iff_complete, law_live_accepts_everything,
    lemma_compare_all_keeps_invariant, lemma_step_keeps_invariant,
};
use crate::matcher::{ends_in, lemma_longest_fits, lemma_longest_upto, longest, Matcher};
use crate::recognition::{lemma_compare_all_scans, occurs, occurs_at};
use vstd::prelude::*;

verus! {

/// `s` reads `ESC [ row ; column R`, row and column being ASCII digits.
pub open spec fn reads_as_report(s: Seq<u8>) -> bool {
    exists|row: Seq<u8>, col: Seq<u8>| #[trigger] reads_as(s, row, col)
}

/// `s` reads `ESC [ row ; column R` with this row and column.
pub open spec fn reads_as(s: Seq<u8>, row: Seq<u8>, col: Seq<u8>) -> bool {
    &&& row.len() > 0
    &&& col.len() > 0
    &&& forall|i: int| 0 <= i < row.len() ==> 0x30 <= #[trigger] row[i] <= 0x39
    &&& forall|i: int| 0 <= i < col.len() ==> 0x30 <= #[trigger] col[i] <= 0x39
    &&& s == seq![0x1bu8, 0x5b] + row + seq![0x3bu8] + col + seq![0x52u8]
}

/// What counts as a Cursor Position Report, byte for byte, what as the
/// beginning of one, and the pattern that finds it.
pub proof fn law_form_of_reports(s: Seq<u8>)
    ensures
        is_report(s) <==> reads_as_report(s),
        is_partial_report(s) <==> s.len() > 0 && exists|t: Seq<u8>|
            reads_as_report(#[trigger] (s + t)),
        CURSOR_PATTERN@ == "^\x1b(\\[([0-9]+(;([0-9]+R?)?)?)?)?$"@,
{
    lemma_report_reads(s);
    if is_partial_report(s) {
        let (row, col) = choose|row: Seq<u8>, col: Seq<u8>|
            is_number(row) && is_number(col) && s.is_prefix_of(#[trigger] report(row, col));
        let r = report(row, col);
        let t = r.skip(s.len() as int);
        assert(s + t =~= r);
        assert(is_report(s + t));
        lemma_report_reads(s + t);
    }
    if s.len() > 0 && exists|t: Seq<u8>| reads_as_report(#[trigger] (s + t)) {
        let t = choose|t: Seq<u8>| reads_as_report(#[trigger] (s + t));
        lemma_report_reads(s + t);
        lemma_beginnings_of_report(s + t, s.len() as int);
        assert((s + t).take(s.len() as int) =~= s);
    }
}

proof fn lemma_report_reads(s: Seq<u8>)
    ensures
        is_report(s) <==> reads_as_report(s),
{
    if is_report(s) {
        let (row, col) = choose|row: Seq<u8>, col: Seq<u8>|
            is_number(row) && is_number(col) && s == #[trigger] report(row, col);
        assert(reads_as(s, row, col));
    }
    if reads_as_report(s) {
        let (row, col) = choose|row: Seq<u8>, col: Seq<u8>| #[trigger] reads_as(s, row, col);
        assert(is_number(row) && is_number(col));
        assert(s =~= report(row, col));
    }
}

/// A byte is set apart only right after a carriage return or line feed of the
/// prefix, and only if it goes on with a report there; and then it always is.
pub proof fn law_set_apart_only_after_newline(m: Matcher, c: u8)
    ensures
        m.swallows(c) <==> {
            &&& 0 < m.pos <= m.prefix
            &&& m.bytes[m.pos - 1] == 0x0d || m.bytes[m.pos - 1] == 0x0a
            &&& exists|t: Seq<u8>| reads_as_report(#[trigger] (m.held.push(c) + t))
        },
{
    law_form_of_reports(m.held.push(c));
}

/// If the prefix holds neither a carriage return nor a line feed, nothing is
/// ever taken for a report: what is kept back is only what is matched beyond
/// the prefix, and the rest of what was typed is let through.
pub proof fn law_nothing_set_apart_without_newline(m: Matcher, input: Seq<u8>)
    requires
        m.prefix <= m.bytes.len(),
        m.pos < m.bytes.len(),
        m.held.len() == 0,
        forall|i: int|
            0 <= i < m.prefix ==> #[trigger] m.bytes[i] != 0x0d && m.bytes[i] != 0x0a,
        !m.run(input).exit,
    ensures
        m.run(input).next.held.len() == 0,
        ({
            let before = if m.pos > m.prefix {
                m.bytes.subrange(m.prefix as int, m.pos as int)
            } else {
                seq![]
            };
            let k = m.run(input).next.pos;
            let after = if k > m.prefix {
                m.bytes.subrange(m.prefix as int, k as int)
            } else {
                seq![]
            };
            before + input == m.run(input).out + after
        }),
{
    let r = m.run(input);
    law_live_accepts_everything(m, input);
    law_exit_iff_complete(m, input);
    law_conservation(m, input);
    assert(r.next.held.len() == 0);
    assert(m.pending() =~= if m.pos > m.prefix {
        m.bytes.subrange(m.prefix as int, m.pos as int)
    } else {
        seq![]
    });
    assert(r.next.pending() =~= if r.next.pos > m.prefix {
        m.bytes.subrange(m.prefix as int, r.next.pos as int)
    } else {
        seq![]
    });
}

/// Two calls do together what one call does with both their inputs; a call that
/// returns true has dealt with all that counts.
pub proof fn law_one_call_after_the_other(m: Matcher, a: Seq<u8>, b: Seq<u8>)
    ensures
        m.run(a).exit ==> {
            &&& m.accepts(a + b) <==> m.accepts(a)
            &&& m.run(a + b).exit
            &&& m.run(a + b).out == m.run(a).out
            &&& m.run(a + b).next == m.run(a).next
        },
        !m.run(a).exit ==> {
            &&& m.accepts(a + b) <==> m.accepts(a) && m.run(a).next.accepts(b)
            &&& m.run(a + b).exit == m.run(a).next.run(b).exit
            &&& m.run(a + b).out == m.run(a).out + m.run(a).next.run(b).out
            &&& m.run(a + b).next == m.run(a).next.run(b).next
        },
{
    law_calls_compose(m, a, b);
}

/// No report is part of a longer one.
proof fn lemma_nothing_short_is_a_report(r: Seq<u8>, n: int)
    requires
        is_report(r),
        0 <= n < r.len(),
    ensures
        !is_report(r.take(n)),
{
    if is_report(r.take(n)) {
        let (row, col) = choose|row: Seq<u8>, col: Seq<u8>|
            is_number(row) && is_number(col) && r.take(n) == #[trigger] report(row, col);
        assert(report(row, col).len() > 0);
        assert(r.take(r.len() as int) =~= r);
        lemma_beginnings_of_report(r, r.len() as int);
        lemma_nothing_follows_a_report(r, n, r.len() as int);
    }
}

/// A Cursor Position Report after a newline of the prefix is kept back until it
/// is complete, and is then let through whole. The match stays as it is all the
/// while. `m.held` is what has arrived of it, `s` arrives now, and `t` is still
/// missing.
#[verifier::rlimit(50)]
pub proof fn law_report_is_set_apart(m: Matcher, s: Seq<u8>, t: Seq<u8>)
    requires
        0 < m.pos <= m.prefix <= m.bytes.len(),
        m.bytes[m.pos - 1] == 0x0d || m.bytes[m.pos - 1] == 0x0a,
        reads_as_report(m.held + s + t),
        s.len() + t.len() > 0,
    ensures
        m.accepts(s),
        !m.run(s).exit,
        m.run(s).next.bytes == m.bytes,
        m.run(s).next.prefix == m.prefix,
        m.run(s).next.pos == m.pos,
        t.len() > 0 ==> m.run(s).out.len() == 0 && m.run(s).next.held == m.held + s,
        t.len() == 0 ==> m.run(s).out == m.held + s && m.run(s).next.held.len() == 0,
    decreases s.len(),
{
    let r = m.held + s + t;
    lemma_report_reads(r);
    if s.len() == 0 {
        assert(m.held + s =~= m.held);
    } else {
        let c = s[0];
        let grown = m.held.push(c);
        let n = grown.len() as int;
        assert(r.take(n) =~= grown);
        lemma_beginnings_of_report(r, n);
        assert(m.swallows(c));
        let first = m.step(c);
        let next = first.next;
        let rest = s.skip(1);
        assert(!first.exit);
        assert(m.run(s) == first.before(next.run(rest)));
        if n == r.len() {
            assert(rest.len() == 0 && t.len() == 0);
            assert(first.out == grown);
            assert(next.accepts(rest));
            assert(next.run(rest).out =~= seq![]);
            assert(grown =~= m.held + s);
            assert(m.run(s).out =~= grown);
        } else {
            lemma_nothing_short_is_a_report(r, n);
            assert(first.out == Seq::<u8>::empty());
            assert(next.held + rest + t =~= r);
            law_report_is_set_apart(next, rest, t);
            assert(grown + rest =~= m.held + s);
            assert(m.run(s).out =~= next.run(rest).out);
        }
        assert(m.accepts_byte(c) && next.accepts(rest));
        assert(m.accepts(s));
    }
}

/// After `text`, a Cursor Position Report would be set apart: the longest
/// beginning of the sequence that `text` ends in lies within the prefix, and its
/// last byte is a carriage return or line feed.
pub open spec fn report_is_due(bytes: Seq<u8>, prefix: nat, text: Seq<u8>) -> bool {
    exists|k: int|
        {
            &&& 0 < k <= prefix
            &&& k <= bytes.len()
            &&& k <= text.len()
            &&& bytes[k - 1] == 0x0d || bytes[k - 1] == 0x0a
            &&& text.skip(text.len() - k) == #[trigger] bytes.take(k)
            &&& forall|j: int|
                k < j <= bytes.len() && j <= text.len() ==> text.skip(text.len() - j)
                    != #[trigger] bytes.take(j)
        }
}

/// Nowhere in `input` does a Cursor Position Report stand where one is due.
pub open spec fn no_due_report(bytes: Seq<u8>, prefix: nat, input: Seq<u8>) -> bool {
    forall|i: int, j: int|
        0 <= i <= j <= input.len() && report_is_due(bytes, prefix, input.take(i))
            ==> !reads_as_report(#[trigger] input.subrange(i, j))
}

/// A report is due only right after a carriage return or line feed. If no
/// report stands there, or if the prefix holds neither of the two, there is no
/// due report at all.
pub proof fn law_reports_are_due_after_newlines(bytes: Seq<u8>, prefix: nat, input: Seq<u8>)
    requires
        ({
            ||| forall|i: int, j: int|
                0 < i <= j <= input.len() && (input[i - 1] == 0x0d || input[i - 1] == 0x0a)
                    ==> !reads_as_report(#[trigger] input.subrange(i, j))
            ||| forall|i: int|
                0 <= i < prefix && i < bytes.len() ==> #[trigger] bytes[i] != 0x0d && bytes[i]
                    != 0x0a
        }),
    ensures
        no_due_report(bytes, prefix, input),
{
    assert forall|i: int, j: int|
        0 <= i <= j <= input.len() && report_is_due(
            bytes,
            prefix,
            input.take(i),
        ) implies !reads_as_report(#[trigger] input.subrange(i, j)) by {
        let text = input.take(i);
        let k = choose|k: int|
            {
                &&& 0 < k <= prefix
                &&& k <= bytes.len()
                &&& k <= text.len()
                &&& bytes[k - 1] == 0x0d || bytes[k - 1] == 0x0a
                &&& text.skip(text.len() - k) == #[trigger] bytes.take(k)
                &&& forall|j: int|
                    k < j <= bytes.len() && j <= text.len() ==> text.skip(text.len() - j)
                        != #[trigger] bytes.take(j)
            };
        assert(bytes.take(k)[k - 1] == text.skip(text.len() - k)[k - 1]);
        assert(text.skip(text.len() - k)[k - 1] == input[i - 1]);
    }
}

proof fn lemma_due_while_watching(m: Matcher, text: Seq<u8>)
    requires
        m.watching(),
        m.pos == longest(m.bytes, text),
    ensures
        report_is_due(m.bytes, m.prefix, text),
{
    let k = m.pos as int;
    lemma_longest_upto(m.bytes, text, m.bytes.len());
    assert(ends_in(m.bytes, text, m.pos));
    assert(text.subrange(text.len() - k, text.len() as int) =~= text.skip(text.len() - k));
    assert(text.skip(text.len() - k) == m.bytes.take(k));
    assert forall|j: int| k < j <= m.bytes.len() && j <= text.len() implies text.skip(
        text.len() - j,
    ) != #[trigger] m.bytes.take(j) by {
        assert(!ends_in(m.bytes, text, j as nat));
        assert(text.subrange(text.len() - j, text.len() as int) =~= text.skip(text.len() - j));
    }
}

/// A byte set apart within such a text does not complete a report.
proof fn lemma_plain_set_apart(m: Matcher, text: Seq<u8>, input: Seq<u8>)
    requires
        m.wf(),
        m.pos == longest(m.bytes, text),
        no_due_report(m.bytes, m.prefix, text + m.held + input),
        input.len() > 0,
        m.swallows(input[0]),
    ensures
        !is_report(m.held.push(input[0])),
        text + m.held.push(input[0]) + input.skip(1) == text + m.held + input,
{
    let full = text + m.held + input;
    let grown = m.held.push(input[0]);
    let from = text.len() as int;
    let to = from + grown.len();
    lemma_due_while_watching(m, text);
    assert(full.take(from) =~= text);
    assert(full.subrange(from, to) =~= grown);
    lemma_report_reads(grown);
    assert(text + grown + input.skip(1) =~= full);
}

/// Bytes compared within a text: see [`lemma_compare_all_scans`].
proof fn lemma_plain_compared(m: Matcher, text: Seq<u8>, input: Seq<u8>)
    requires
        m.wf(),
        m.live(),
        m.pos == longest(m.bytes, text),
        !occurs(m.bytes, text),
        input.len() > 0,
        !m.swallows(input[0]),
    ensures
        ({
            let full = text + m.held + input;
            let grown = m.held.push(input[0]);
            let r = m.step(input[0]);
            let end = text.len() + m.held.len() + r.used - r.dropped.len();
            &&& r.used == 1
            &&& r.next.held.len() == 0
            &&& r.exit ==> {
                &&& 0 < end <= full.len()
                &&& occurs(m.bytes, full.take(end))
                &&& !occurs(m.bytes, full.take(end - 1))
            }
            &&& !r.exit ==> {
                &&& !occurs(m.bytes, text + grown)
                &&& r.next.pos == longest(m.bytes, text + grown)
                &&& (text + grown) + r.next.held + input.skip(1) == full
            }
        }),
{
    let full = text + m.held + input;
    let grown = m.held.push(input[0]);
    let base = Matcher { held: seq![], ..m };
    let r = base.compare_all(grown);
    lemma_compare_all_scans(base, text, grown);
    lemma_compare_all_keeps_invariant(base, grown);
    if r.exit {
        let n = r.used as int;
        assert(full.take(text.len() + n) =~= text + grown.take(n));
        assert(full.take(text.len() + n - 1) =~= text + grown.take(n - 1));
    } else {
        assert((text + grown) + r.next.held + input.skip(1) =~= full);
    }
}

/// The filter follows the text: see [`law_plain_typing`].
#[verifier::rlimit(50)]
proof fn lemma_plain(m: Matcher, text: Seq<u8>, input: Seq<u8>)
    requires
        m.wf(),
        m.live(),
        m.pos == longest(m.bytes, text),
        !occurs(m.bytes, text),
        no_due_report(m.bytes, m.prefix, text + m.held + input),
    ensures
        ({
            let full = text + m.held + input;
            let r = m.run(input);
            let decided = full.len() - r.next.held.len();
            let end = text.len() + m.held.len() + r.used - r.dropped.len();
            &&& !r.exit ==> {
                &&& decided >= 0
                &&& full == full.take(decided) + r.next.held
                &&& !occurs(m.bytes, full.take(decided))
                &&& r.next.pos == longest(m.bytes, full.take(decided))
            }
            &&& r.exit ==> {
                &&& r.next.held.len() == 0
                &&& 0 < end <= full.len()
                &&& occurs(m.bytes, full.take(end))
                &&& !occurs(m.bytes, full.take(end - 1))
            }
        }),
    decreases input.len(),
{
    if input.len() == 0 {
        assert(text + m.held + input =~= text + m.held);
        assert((text + m.held).take(text.len() as int) =~= text);
    } else {
        let c = input[0];
        let first = m.step(c);
        lemma_step_keeps_invariant(m, c);
        if m.swallows(c) {
            lemma_plain_set_apart(m, text, input);
            lemma_plain(first.next, text, input.skip(1));
        } else {
            lemma_plain_compared(m, text, input);
            if !first.exit {
                lemma_plain(first.next, text + m.held.push(c), input.skip(1));
            }
        }
    }
}

/// What [`law_plain_typing`] says as long as the sequence is not complete.
#[verifier::rlimit(50)]
proof fn lemma_plain_open(m: Matcher, input: Seq<u8>)
    requires
        m.prefix <= m.bytes.len(),
        m.bytes.len() > 0,
        m.pos == 0,
        m.held.len() == 0,
        m.accepts(input),
        !m.run(input).exit,
        m.run(input).next.wf(),
        m.run(input).next.live(),
        m.run(input).next.bytes == m.bytes,
        m.run(input).next.prefix == m.prefix,
        ({
            let held = m.run(input).next.held;
            let text = input.take(input.len() - held.len());
            &&& held.len() <= input.len()
            &&& input == text + held
            &&& !occurs(m.bytes, text)
            &&& m.run(input).next.pos == longest(m.bytes, text)
        }),
    ensures
        ({
            let held = m.run(input).next.held;
            let k = m.run(input).next.pos as int;
            let text = input.take(input.len() - held.len());
            let back = if k > m.prefix {
                k - m.prefix
            } else {
                0
            };
            &&& input == text + held
            &&& held.len() > 0 ==> {
                &&& 0 < k <= m.prefix
                &&& m.bytes[k - 1] == 0x0d || m.bytes[k - 1] == 0x0a
                &&& exists|t: Seq<u8>| t.len() > 0 && reads_as_report(#[trigger] (held + t))
            }
            &&& forall|i: int|
                0 <= i <= text.len() - m.bytes.len() ==> #[trigger] text.subrange(
                    i,
                    i + m.bytes.len(),
                ) != m.bytes
            &&& 0 <= k < m.bytes.len()
            &&& k <= text.len()
            &&& text.skip(text.len() - k) == m.bytes.take(k)
            &&& forall|j: int|
                k < j <= m.bytes.len() && j <= text.len() ==> text.skip(text.len() - j)
                    != #[trigger] m.bytes.take(j)
            &&& m.run(input).out == text.take(text.len() - back)
        }),
{
    let len = m.bytes.len() as int;
    let r = m.run(input);
    law_conservation(m, input);
    assert(m.pending() =~= seq![]);
    let held = r.next.held;
    let k = r.next.pos as int;
    let text = input.take(input.len() - held.len());
    assert(input == text + held);
    assert(m.pending() + input =~= input);
    if held.len() > 0 {
        law_form_of_reports(held);
        let t = choose|t: Seq<u8>| reads_as_report(#[trigger] (held + t));
        if t.len() == 0 {
            assert(held + t =~= held);
        }
    }
    assert forall|i: int| 0 <= i <= text.len() - len implies #[trigger] text.subrange(
        i,
        i + len,
    ) != m.bytes by {
        if text.subrange(i, i + len) == m.bytes {
            assert(occurs_at(m.bytes, text, i));
        }
    }
    lemma_longest_upto(m.bytes, text, m.bytes.len());
    assert(ends_in(m.bytes, text, k as nat));
    assert(text.subrange(text.len() - k, text.len() as int) =~= text.skip(text.len() - k));
    assert forall|j: int| k < j <= len && j <= text.len() implies text.skip(text.len() - j)
        != #[trigger] m.bytes.take(j) by {
        assert(!ends_in(m.bytes, text, j as nat));
        assert(text.subrange(text.len() - j, text.len() as int) =~= text.skip(text.len() - j));
    }
    let back = if k > m.prefix {
        k - m.prefix
    } else {
        0
    };
    assert(r.next.pending().len() == back + held.len());
    assert(r.out =~= input.take(r.out.len() as int));
    assert(r.out =~= text.take(text.len() - back));
}

/// What [`law_plain_typing`] says once the sequence is complete.
#[verifier::rlimit(50)]
proof fn lemma_plain_complete(m: Matcher, input: Seq<u8>)
    requires
        m.prefix <= m.bytes.len(),
        m.bytes.len() > 0,
        m.pos == 0,
        m.held.len() == 0,
        m.accepts(input),
        m.run(input).exit,
        m.run(input).used <= input.len(),
        m.run(input).next.held.len() == 0,
        m.run(input).next.pos == m.bytes.len(),
        ({
            let end = m.run(input).used - m.run(input).dropped.len();
            &&& 0 < end <= input.len()
            &&& occurs(m.bytes, input.take(end))
            &&& !occurs(m.bytes, input.take(end - 1))
        }),
    ensures
        exists|i: int|
            {
                let end = i + m.bytes.len();
                let back = if m.prefix < m.bytes.len() {
                    m.bytes.len() - m.prefix
                } else {
                    1
                };
                &&& 0 <= i <= input.len() - m.bytes.len()
                &&& #[trigger] input.subrange(i, i + m.bytes.len()) == m.bytes
                &&& forall|j: int|
                    0 <= j < i ==> #[trigger] input.subrange(j, j + m.bytes.len()) != m.bytes
                &&& m.run(input).out == input.take(end - back)
                &&& m.run(input).next.pos == m.bytes.len()
                &&& m.run(input).next.held.len() == 0
            },
{
    let len = m.bytes.len() as int;
    let r = m.run(input);
    law_conservation(m, input);
    assert(m.pending() =~= seq![]);
    let end = r.used - r.dropped.len();
    let i = end - len;
    let part = input.take(end);
    let earlier = input.take(end - 1);
    let w = choose|w: int| occurs_at(m.bytes, part, w);
    if w < i {
        assert(earlier.subrange(w, w + len) =~= part.subrange(w, w + len));
        assert(occurs_at(m.bytes, earlier, w));
    }
    assert(input.subrange(i, i + len) =~= part.subrange(i, i + len));
    assert forall|j: int| 0 <= j < i implies #[trigger] input.subrange(j, j + len)
        != m.bytes by {
        if input.subrange(j, j + len) == m.bytes {
            assert(earlier.subrange(j, j + len) =~= input.subrange(j, j + len));
            assert(occurs_at(m.bytes, earlier, j));
        }
    }
    let typed = input.take(r.used as int);
    assert(m.pending() + typed =~= typed);
    assert(r.out =~= typed.take(r.out.len() as int));
    assert(r.out =~= input.take(end - m.suppressed().len()));
}

/// What a new filter makes of any input in which no Cursor Position Report
/// stands where one is due.
///
/// As long as it returns false, the sequence does not occur in what was typed;
/// the filter knows the longest beginning of the sequence that the text ends
/// in, and has let through everything but the part of it beyond the prefix.
/// Bytes that may still become a report are aside from all that, and there are
/// such bytes only after a newline of the prefix.
///
/// When it returns true, it does so for the first occurrence, and has let
/// through everything up to and with its prefix (but not its last byte, if the
/// prefix is all of it).
#[verifier::rlimit(50)]
pub proof fn law_plain_typing(m: Matcher, input: Seq<u8>)
    requires
        m.prefix <= m.bytes.len(),
        m.bytes.len() > 0,
        m.pos == 0,
        m.held.len() == 0,
        no_due_report(m.bytes, m.prefix, input),
    ensures
        m.run(input).next.bytes == m.bytes,
        m.run(input).next.prefix == m.prefix,
        !m.run(input).exit ==> {
            let held = m.run(input).next.held;
            let k = m.run(input).next.pos as int;
            let text = input.take(input.len() - held.len());
            let back = if k > m.prefix {
                k - m.prefix
            } else {
                0
            };
            &&& input == text + held
            &&& held.len() > 0 ==> {
                &&& 0 < k <= m.prefix
                &&& m.bytes[k - 1] == 0x0d || m.bytes[k - 1] == 0x0a
                &&& exists|t: Seq<u8>| t.len() > 0 && reads_as_report(#[trigger] (held + t))
            }
            &&& forall|i: int|
                0 <= i <= text.len() - m.bytes.len() ==> #[trigger] text.subrange(
                    i,
                    i + m.bytes.len(),
                ) != m.bytes
            &&& 0 <= k < m.bytes.len()
            &&& k <= text.len()
            &&& text.skip(text.len() - k) == m.bytes.take(k)
            &&& forall|j: int|
                k < j <= m.bytes.len() && j <= text.len() ==> text.skip(text.len() - j)
                    != #[trigger] m.bytes.take(j)
            &&& m.run(input).out == text.take(text.len() - back)
        },
        m.run(input).exit ==> exists|i: int|
            {
                let end = i + m.bytes.len();
                let back = if m.prefix < m.bytes.len() {
                    m.bytes.len() - m.prefix
                } else {
                    1
                };
                &&& 0 <= i <= input.len() - m.bytes.len()
                &&& #[trigger] input.subrange(i, i + m.bytes.len()) == m.bytes
                &&& forall|j: int|
                    0 <= j < i ==> #[trigger] input.subrange(j, j + m.bytes.len()) != m.bytes
                &&& m.run(input).out == input.take(end - back)
                &&& m.run(input).next.pos == m.bytes.len()
                &&& m.run(input).next.held.len() == 0
            },
{
    let none = Seq::<u8>::empty();
    let r = m.run(input);
    assert(longest(m.bytes, none) == 0) by {
        lemma_longest_fits(m.bytes, none);
    }
    assert(none + m.held + input =~= input);
    assert(!occurs(m.bytes, none));
    lemma_plain(m, none, input);
    assert(m.accepts(input)) by {
        law_live_accepts_everything(m, input);
    }
    law_exit_iff_complete(m, input);
    if r.exit {
        lemma_plain_complete(m, input);
    } else {
        lemma_plain_open(m, input);
    }
}

/// A new filter looks for just the bytes that it is made for, lets through just
/// the prefix that it is made with, and has seen nothing. So it returns true
/// exactly if those bytes occur in what was typed, but for bytes at the end that
/// may still become a report.
pub proof fn law_new_filter(bytes: Seq<u8>, prefix: nat, input: Seq<u8>)
    requires
        prefix <= bytes.len(),
        bytes.len() > 0,
        no_due_report(bytes, prefix, input),
    ensures
        Matcher::fresh(bytes, prefix).bytes == bytes,
        Matcher::fresh(bytes, prefix).prefix == prefix,
        Matcher::fresh(bytes, prefix).pos == 0,
        Matcher::fresh(bytes, prefix).held.len() == 0,
        ({
            let r = Matcher::fresh(bytes, prefix).run(input);
            r.exit <==> exists|i: int|
                0 <= i <= input.len() - r.next.held.len() - bytes.len()
                    && #[trigger] input.subrange(i, i + bytes.len()) == bytes
        }),
{
    let m = Matcher::fresh(bytes, prefix);
    let r = m.run(input);
    law_plain_typing(m, input);
    if !r.exit {
        let text = input.take(input.len() - r.next.held.len());
        assert forall|i: int|
            0 <= i <= input.len() - r.next.held.len()
                - bytes.len() implies #[trigger] input.subrange(i, i + bytes.len()) != bytes by {
            assert(text.subrange(i, i + bytes.len()) =~= input.subrange(i, i + bytes.len()));
        }
    }
}

/// A filter for a sequence that is not empty copes with any input, as long as
/// it has not returned true.
pub proof fn law_copes_until_complete(m: Matcher, input: Seq<u8>, more: Seq<u8>)
    requires
        m.prefix <= m.bytes.len(),
        m.bytes.len() > 0,
        m.pos == 0,
        m.held.len() == 0,
    ensures
        m.accepts(input),
        !m.run(input).exit ==> m.run(input).next.accepts(more),
{
    law_live_accepts_everything(m, input + more);
    law_calls_compose(m, input, more);
}

/// Once the sequence is complete, no input is expected any more, except for
/// Cursor Position Reports if the sequence is all prefix and ends in a newline.
pub proof fn law_copes_with_reports_after_completion(m: Matcher, s: Seq<u8>, n: int)
    requires
        m.prefix <= m.bytes.len(),
        m.pos == m.bytes.len(),
        m.held.len() == 0,
        s.len() > 0,
    ensures
        !(m.bytes.len() > 0 && m.prefix == m.bytes.len() && (m.bytes.last() == 0x0d
            || m.bytes.last() == 0x0a)) ==> !m.accepts(s),
        m.bytes.len() > 0 && m.prefix == m.bytes.len() && (m.bytes.last() == 0x0d
            || m.bytes.last() == 0x0a) ==> {
            &&& (exists|t: Seq<u8>| reads_as_report(#[trigger] (s + t))) ==> m.accepts(s)
            &&& 0 <= n <= s.len() && reads_as_report(s.take(n)) ==> (m.accepts(s) <==> m.accepts(
                s.skip(n),
            ))
            &&& (forall|t: Seq<u8>| !reads_as_report(#[trigger] (s + t))) && (forall|k: int|
                0 <= k <= s.len() ==> !reads_as_report(#[trigger] s.take(k))) ==> !m.accepts(s)
        },
{
    if m.bytes.len() > 0 && m.prefix == m.bytes.len() && (m.bytes.last() == 0x0d
        || m.bytes.last() == 0x0a) {
        let none = Seq::<u8>::empty();
        if exists|t: Seq<u8>| reads_as_report(#[trigger] (s + t)) {
            let t = choose|t: Seq<u8>| reads_as_report(#[trigger] (s + t));
            assert(m.held + s + t =~= s + t);
            law_report_is_set_apart(m, s, t);
        }
        if 0 <= n <= s.len() && reads_as_report(s.take(n)) {
            let r = s.take(n);
            lemma_report_reads(r);
            assert(m.held + r + none =~= r);
            assert(r.len() > 0) by {
                let (row, col) = choose|row: Seq<u8>, col: Seq<u8>| #[trigger]
                    reads_as(r, row, col);
                assert(r == seq![0x1bu8, 0x5b] + row + seq![0x3bu8] + col + seq![0x52u8]);
            }
            law_report_is_set_apart(m, r, none);
            assert(m.run(r).next =~= m);
            assert(r + s.skip(n) =~= s);
            law_calls_compose(m, r, s.skip(n));
        }
        if (forall|t: Seq<u8>| !reads_as_report(#[trigger] (s + t))) && (forall|k: int|
            0 <= k <= s.len() ==> !reads_as_report(#[trigger] s.take(k))) {
            assert(m.held + s =~= s);
            lemma_no_report_no_cope(m, s);
        }
    }
}

proof fn lemma_no_report_no_cope(m: Matcher, s: Seq<u8>)
    requires
        !m.live(),
        m.watching(),
        s.len() > 0,
        forall|t: Seq<u8>| !reads_as_report(#[trigger] (m.held + s + t)),
        forall|k: int|
            0 <= k <= (m.held + s).len() ==> !reads_as_report(#[trigger] (m.held + s).take(k)),
    ensures
        !m.accepts(s),
    decreases s.len(),
{
    let c = s[0];
    let all = m.held + s;
    let grown = m.held.push(c);
    if m.swallows(c) {
        law_form_of_reports(grown);
        assert(all.take(grown.len() as int) =~= grown);
        let next = m.step(c).next;
        let rest = s.skip(1);
        assert(next.held + rest =~= all);
        if rest.len() == 0 {
            let t = choose|t: Seq<u8>| reads_as_report(#[trigger] (grown + t));
            assert(grown =~= all);
            assert(reads_as_report(m.held + s + t));
        } else {
            lemma_no_report_no_cope(next, rest);
        }
    }
}

} // verus!
