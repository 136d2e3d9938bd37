//! When the escape-sequence filter recognises its sequence.

use crate::cursor::{
    is_partial_report, is_report, lemma_beginnings_of_report, lemma_bytes_of_partial_report,
    lemma_first_byte, lemma_nothing_follows_a_report, ESC,
};
use crate::laws::{
    law_calls_compose, law_conservation, law_exit_iff_complete, law_live_accepts_everything,
    lemma_compare_all_keeps_invariant, lemma_step_keeps_invariant,
};
use crate::matcher::{
    ends_in, is_newline, lemma_ends_in_bytes, lemma_longest_fits, lemma_longest_is,
    lemma_longest_upto, lemma_next_pos_bounds, lemma_next_pos_of_match, longest, Matcher, Progress,
};
use vstd::prelude::*;

verus! {

/// `bytes` stands in `text`, from `i` on.
pub open spec fn occurs_at(bytes: Seq<u8>, text: Seq<u8>, i: int) -> bool {
    0 <= i <= text.len() - bytes.len() && text.subrange(i, i + bytes.len()) == bytes
}

/// `bytes` stands somewhere in `text`.
pub open spec fn occurs(bytes: Seq<u8>, text: Seq<u8>) -> bool {
    exists|i: int| occurs_at(bytes, text, i)
}

/// After `text`, a Cursor Position Report would be the answer to a newline of
/// the prefix: such a newline is the last byte matched.
pub open spec fn awaits_report(bytes: Seq<u8>, prefix: nat, text: Seq<u8>) -> bool {
    let k = longest(bytes, text);
    0 < k <= prefix && is_newline(bytes[k - 1])
}

/// The first `n` bytes of `s` are a Cursor Position Report.
pub open spec fn report_ends_at(s: Seq<u8>, n: int) -> bool {
    0 < n <= s.len() && is_report(s.take(n))
}

/// `text`, followed by `input` without the Cursor Position Reports that answer
/// a newline of the prefix.
pub open spec fn without_reports(
    bytes: Seq<u8>,
    prefix: nat,
    text: Seq<u8>,
    input: Seq<u8>,
) -> Seq<u8>
    decreases input.len(),
{
    if input.len() == 0 {
        text
    } else if awaits_report(bytes, prefix, text) && exists|n: int| report_ends_at(input, n) {
        let n = choose|n: int| report_ends_at(input, n);
        without_reports(bytes, prefix, text, input.skip(n))
    } else {
        without_reports(bytes, prefix, text.push(input[0]), input.skip(1))
    }
}

/// No byte of the sequence from `from` on and before `to` is an escape
/// character that follows a newline of the prefix, and so could be the
/// beginning of a Cursor Position Report.
pub open spec fn undisturbed(m: Matcher, from: int, to: int) -> bool {
    forall|i: int|
        from <= i < to && 0 < i <= m.prefix && is_newline(m.bytes[i - 1])
            ==> #[trigger] m.bytes[i] != ESC
}

/// The longest match after one more byte depends on the text only through the
/// longest match before it.
proof fn lemma_longest_of_push(bytes: Seq<u8>, text: Seq<u8>, c: u8)
    requires
        longest(bytes, text) < bytes.len(),
    ensures
        longest(bytes, text.push(c)) == longest(
            bytes,
            bytes.take(longest(bytes, text) as int).push(c),
        ),
{
    let p = longest(bytes, text);
    let short = bytes.take(p as int).push(c);
    let k = longest(bytes, short);
    lemma_longest_upto(bytes, text, bytes.len());
    lemma_longest_upto(bytes, short, bytes.len());
    lemma_ends_in_bytes(bytes, text, p);
    lemma_ends_in_bytes(bytes, short, k);
    lemma_ends_in_bytes(bytes, text.push(c), k);
    assert forall|i: int| 0 <= i < k implies #[trigger] bytes[i] == text.push(c)[text.len() + 1 - k
        + i] by {
        assert(bytes[i] == short[p + 1 - k + i]);
        if i < k - 1 {
            assert(short[p + 1 - k + i] == bytes[p + 1 - k + i]);
            assert(bytes[p + 1 - k + i] == text[text.len() - p + (p + 1 - k + i)]);
        }
    }
    assert(ends_in(bytes, text.push(c), k));
    assert forall|j: nat| k < j <= bytes.len() implies !#[trigger] ends_in(
        bytes,
        text.push(c),
        j,
    ) by {
        lemma_ends_in_bytes(bytes, text.push(c), j);
        if ends_in(bytes, text.push(c), j) {
            let q = (j - 1) as nat;
            lemma_ends_in_bytes(bytes, text, q);
            assert forall|i: int| 0 <= i < q implies #[trigger] bytes[i] == text[text.len() - q
                + i] by {
                assert(bytes[i] == text.push(c)[text.len() + 1 - j + i]);
            }
            assert(ends_in(bytes, text, q));
            assert(q <= p);
            lemma_ends_in_bytes(bytes, short, j);
            assert forall|i: int| 0 <= i < j implies #[trigger] bytes[i] == short[p + 1 - j
                + i] by {
                assert(bytes[i] == text.push(c)[text.len() + 1 - j + i]);
                if i < j - 1 {
                    assert(short[p + 1 - j + i] == bytes[p + 1 - j + i]);
                    assert(bytes[p + 1 - j + i] == text[text.len() - p + (p + 1 - j + i)]);
                }
            }
            assert(ends_in(bytes, short, j));
        }
    }
    lemma_longest_is(bytes, text.push(c), k);
}

/// A text ends in the whole sequence exactly if it occurs there at the end.
proof fn lemma_complete_iff_at_end(bytes: Seq<u8>, text: Seq<u8>)
    ensures
        longest(bytes, text) == bytes.len() <==> occurs_at(bytes, text, text.len() - bytes.len()),
{
    lemma_longest_upto(bytes, text, bytes.len());
    assert(bytes.take(bytes.len() as int) =~= bytes);
    if occurs_at(bytes, text, text.len() - bytes.len()) {
        assert(ends_in(bytes, text, bytes.len()));
    }
}

proof fn lemma_occurs_in_longer(bytes: Seq<u8>, a: Seq<u8>, b: Seq<u8>)
    requires
        occurs(bytes, a),
    ensures
        occurs(bytes, a + b),
{
    let i = choose|i: int| occurs_at(bytes, a, i);
    assert((a + b).subrange(i, i + bytes.len()) =~= a.subrange(i, i + bytes.len()));
    assert(occurs_at(bytes, a + b, i));
}

/// An occurrence in a text that grew by one byte is an old one or at the end.
proof fn lemma_new_occurrence(bytes: Seq<u8>, text: Seq<u8>, c: u8)
    requires
        !occurs(bytes, text),
    ensures
        occurs(bytes, text.push(c)) <==> longest(bytes, text.push(c)) == bytes.len(),
{
    let grown = text.push(c);
    lemma_complete_iff_at_end(bytes, grown);
    if occurs(bytes, grown) {
        let i = choose|i: int| occurs_at(bytes, grown, i);
        if i < grown.len() - bytes.len() {
            assert(text.subrange(i, i + bytes.len()) =~= grown.subrange(i, i + bytes.len()));
            assert(occurs_at(bytes, text, i));
        }
    }
}

/// Comparing bytes completes the sequence exactly if it occurs in the text, and
/// otherwise leaves the longest match that the text ends in.
pub proof fn lemma_compare_all_scans(m: Matcher, text: Seq<u8>, s: Seq<u8>)
    requires
        m.wf(),
        m.live(),
        m.held.len() == 0,
        m.pos == longest(m.bytes, text),
        !occurs(m.bytes, text),
    ensures
        m.compare_all(s).exit ==> {
            let n = m.compare_all(s).used as int;
            &&& n > 0
            &&& occurs(m.bytes, text + s.take(n))
            &&& !occurs(m.bytes, text + s.take(n - 1))
        },
        !m.compare_all(s).exit ==> !occurs(m.bytes, text + s) && m.compare_all(s).next.pos
            == longest(m.bytes, text + s),
    decreases s.len(),
{
    if s.len() == 0 {
        assert(text + s =~= text);
    } else {
        let c = s[0];
        let first = m.compare(c);
        lemma_next_pos_bounds(m, c);
        lemma_longest_of_push(m.bytes, text, c);
        lemma_new_occurrence(m.bytes, text, c);
        if first.exit {
            assert(text + s.take(1) =~= text.push(c));
            assert(text + s.take(0) =~= text);
        } else {
            let later = first.next.compare_all(s.skip(1));
            lemma_compare_all_scans(first.next, text.push(c), s.skip(1));
            lemma_compare_all_keeps_invariant(first.next, s.skip(1));
            assert(text.push(c) + s.skip(1) =~= text + s);
            assert(text.push(c) + s.skip(1).take(later.used as int) =~= text + s.take(
                later.used as int + 1,
            ));
            if later.exit {
                assert(text.push(c) + s.skip(1).take(later.used as int - 1) =~= text + s.take(
                    later.used as int,
                ));
            }
        }
    }
}

proof fn lemma_without_reports_extends(
    bytes: Seq<u8>,
    prefix: nat,
    text: Seq<u8>,
    input: Seq<u8>,
)
    ensures
        text.is_prefix_of(without_reports(bytes, prefix, text, input)),
    decreases input.len(),
{
    if input.len() == 0 {
    } else if awaits_report(bytes, prefix, text) && exists|n: int| report_ends_at(input, n) {
        let n = choose|n: int| report_ends_at(input, n);
        lemma_without_reports_extends(bytes, prefix, text, input.skip(n));
    } else {
        lemma_without_reports_extends(bytes, prefix, text.push(input[0]), input.skip(1));
        let w = without_reports(bytes, prefix, text, input);
        assert(text =~= w.take(text.len() as int));
    }
}

/// After a byte that is no newline, no report is awaited.
proof fn lemma_no_report_awaited(bytes: Seq<u8>, prefix: nat, text: Seq<u8>)
    requires
        text.len() > 0,
        !is_newline(text.last()),
    ensures
        !awaits_report(bytes, prefix, text),
{
    lemma_longest_fits(bytes, text);
    let k = longest(bytes, text);
    lemma_ends_in_bytes(bytes, text, k);
    if k > 0 {
        assert(bytes[k - 1] == text[text.len() - k + (k - 1)]);
    }
}

/// While no report is awaited, bytes go into the text one by one.
proof fn lemma_goes_into_text(
    bytes: Seq<u8>,
    prefix: nat,
    text: Seq<u8>,
    s: Seq<u8>,
    rest: Seq<u8>,
)
    requires
        s.len() > 0,
        !awaits_report(bytes, prefix, text) || !exists|n: int| report_ends_at(s + rest, n),
        forall|i: int| 0 <= i < s.len() - 1 ==> !is_newline(#[trigger] s[i]),
    ensures
        without_reports(bytes, prefix, text, s + rest) == without_reports(
            bytes,
            prefix,
            text + s,
            rest,
        ),
    decreases s.len(),
{
    let c = s[0];
    assert((s + rest)[0] == c);
    assert((s + rest).skip(1) =~= s.skip(1) + rest);
    if s.len() == 1 {
        assert(text + s =~= text.push(c));
        assert(s.skip(1) + rest =~= rest);
    } else {
        lemma_no_report_awaited(bytes, prefix, text.push(c));
        assert forall|i: int| 0 <= i < s.skip(1).len() - 1 implies !is_newline(
            #[trigger] s.skip(1)[i],
        ) by {
            assert(s.skip(1)[i] == s[i + 1]);
        }
        lemma_goes_into_text(bytes, prefix, text.push(c), s.skip(1), rest);
        assert(text.push(c) + s.skip(1) =~= text + s);
    }
}

/// Bytes that break a candidate off show that none of what was kept back is a
/// report.
proof fn lemma_broken_candidate(m: Matcher, c: u8, rest: Seq<u8>)
    requires
        m.wf(),
        m.watching(),
        !m.swallows(c),
    ensures
        !exists|n: int| report_ends_at(m.held.push(c) + rest, n),
{
    let s = m.held.push(c) + rest;
    let h = m.held.len() as int;
    if exists|n: int| report_ends_at(s, n) {
        let n = choose|n: int| report_ends_at(s, n);
        assert(s.take(h) =~= m.held);
        assert(s.take(h + 1) =~= m.held.push(c));
        if n <= h {
            lemma_nothing_follows_a_report(s, n, h);
        } else {
            lemma_beginnings_of_report(s.take(n), h + 1);
            assert(s.take(n).take(h + 1) =~= s.take(h + 1));
        }
    }
}

/// The filter follows the text: see [`law_exit_iff_sequence_is_fed`].
proof fn lemma_scan(m: Matcher, text: Seq<u8>, input: Seq<u8>)
    requires
        m.wf(),
        m.live(),
        m.pos == longest(m.bytes, text),
        !occurs(m.bytes, text),
    ensures
        ({
            let w = without_reports(m.bytes, m.prefix, text, m.held + input);
            let r = m.run(input);
            let decided = w.len() - r.next.held.len();
            &&& r.exit ==> occurs(m.bytes, w)
            &&& r.exit ==> r.next.held.len() == 0
            &&& !r.exit ==> {
                &&& decided >= 0
                &&& w == w.take(decided) + r.next.held
                &&& !occurs(m.bytes, w.take(decided))
                &&& r.next.pos == longest(m.bytes, w.take(decided))
            }
        }),
    decreases input.len(),
{
    let bytes = m.bytes;
    let prefix = m.prefix;
    assert(awaits_report(bytes, prefix, text) == m.watching());
    if input.len() == 0 {
        assert(m.held + input =~= m.held);
        let w = without_reports(bytes, prefix, text, m.held);
        if m.held.len() == 0 {
            assert(w.take(w.len() as int) =~= text);
            assert(w =~= text + m.held);
        } else {
            if exists|n: int| report_ends_at(m.held, n) {
                let n = choose|n: int| report_ends_at(m.held, n);
                assert(m.held.take(m.held.len() as int) =~= m.held);
                lemma_nothing_follows_a_report(m.held, n, m.held.len() as int);
            }
            let none = Seq::<u8>::empty();
            assert(m.held + none =~= m.held);
            assert forall|i: int| 0 <= i < m.held.len() - 1 implies !is_newline(
                #[trigger] m.held[i],
            ) by {
                lemma_bytes_of_partial_report(m.held, i);
            }
            lemma_goes_into_text(bytes, prefix, text, m.held, none);
            assert(w == text + m.held);
            assert(w.take(text.len() as int) =~= text);
        }
    } else {
        let c = input[0];
        let rest = input.skip(1);
        let first = m.step(c);
        let grown = m.held.push(c);
        assert(m.held + input =~= grown + rest);
        lemma_step_keeps_invariant(m, c);
        if m.swallows(c) {
            if is_report(grown) {
                let full = grown + rest;
                let k = grown.len() as int;
                assert(full.take(k) =~= grown);
                assert(report_ends_at(full, k));
                let n = choose|n: int| report_ends_at(full, n);
                if n < k {
                    lemma_nothing_follows_a_report(full, n, k);
                } else {
                    lemma_beginnings_of_report(full.take(n), n);
                    assert(full.take(n).take(n) =~= full.take(n));
                    lemma_nothing_follows_a_report(full, k, n);
                }
                assert(full.skip(k) =~= rest);
                assert(first.next.held + rest =~= rest);
            }
            lemma_scan(first.next, text, rest);
        } else {
            let base = Matcher { held: seq![], ..m };
            let r = base.compare_all(grown);
            if m.watching() {
                lemma_broken_candidate(m, c, rest);
            }
            assert forall|i: int| 0 <= i < grown.len() - 1 implies !is_newline(
                #[trigger] grown[i],
            ) by {
                lemma_bytes_of_partial_report(m.held, i);
            }
            lemma_goes_into_text(bytes, prefix, text, grown, rest);
            lemma_compare_all_scans(base, text, grown);
            lemma_compare_all_keeps_invariant(base, grown);
            if r.exit {
                let n = r.used as int;
                let w = without_reports(bytes, prefix, text + grown, rest);
                lemma_without_reports_extends(bytes, prefix, text + grown, rest);
                let grown_text = text + grown;
                assert forall|i: int| 0 <= i < grown_text.len() implies #[trigger] w[i]
                    == grown_text[i] by {
                    assert(w.subrange(0, grown_text.len() as int)[i] == w[i]);
                }
                assert(w =~= (text + grown.take(n)) + w.skip(text.len() + n));
                lemma_occurs_in_longer(bytes, text + grown.take(n), w.skip(text.len() + n));
            } else {
                assert(first.next.held + rest =~= rest);
                lemma_scan(first.next, text + grown, rest);
            }
        }
    }
}

/// The sequence cannot end in what is still taken for a report, unless an
/// escape character follows a newline of its prefix.
proof fn lemma_no_occurrence_in_candidate(m: Matcher, text: Seq<u8>, s: Seq<u8>)
    requires
        m.wf(),
        m.watching(),
        m.pos == longest(m.bytes, text),
        !occurs(m.bytes, text),
        is_partial_report(s),
        undisturbed(m, 0, m.bytes.len() as int),
    ensures
        !occurs(m.bytes, text + s),
{
    let all = text + s;
    let len = m.bytes.len() as int;
    lemma_longest_upto(m.bytes, text, m.bytes.len());
    lemma_ends_in_bytes(m.bytes, text, m.pos);
    if occurs(m.bytes, all) {
        let i = choose|i: int| occurs_at(m.bytes, all, i);
        assert forall|j: int| 0 <= j < len implies #[trigger] m.bytes[j] == all[i + j] by {
            assert(all.subrange(i, i + len)[j] == all[i + j]);
        }
        if i + len <= text.len() {
            assert(text.subrange(i, i + len) =~= all.subrange(i, i + len));
            assert(occurs_at(m.bytes, text, i));
        } else if i >= text.len() {
            let j = i + (m.pos - 1) - text.len();
            assert(m.bytes[m.pos - 1] == all[i + (m.pos - 1)]);
            lemma_bytes_of_partial_report(s, j);
        } else {
            let q = (text.len() - i) as nat;
            lemma_ends_in_bytes(m.bytes, text, q);
            assert forall|j: int| 0 <= j < q implies #[trigger] m.bytes[j] == text[text.len() - q
                + j] by {
                assert(m.bytes[j] == all[i + j]);
            }
            assert(ends_in(m.bytes, text, q));
            assert(q <= m.pos);
            lemma_bytes_of_partial_report(s, 0);
            assert(m.bytes[q as int] == all[i + q]);
            assert(m.bytes[q - 1] == text[text.len() - 1]);
            assert(m.bytes[m.pos - 1] == text[text.len() - m.pos + (m.pos - 1)]);
        }
    }
}

/// `process` returns true exactly if the sequence is fed to it: if it occurs in
/// what was typed, however that was cut into calls, with the Cursor Position
/// Reports that answer a newline of the prefix left out. Bytes at the end of
/// which it cannot be told yet whether they are such a report have to wait.
/// They do not matter, unless the sequence itself has an escape character right
/// after a newline of its prefix.
pub proof fn law_exit_iff_sequence_is_fed(m: Matcher, input: Seq<u8>)
    requires
        m.wf(),
        m.live(),
        m.pos == 0,
        m.held.len() == 0,
    ensures
        ({
            let typed = without_reports(m.bytes, m.prefix, seq![], input);
            let undecided = m.run(input).next.held;
            &&& undecided.is_suffix_of(typed)
            &&& m.run(input).exit <==> occurs(
                m.bytes,
                typed.take(typed.len() - undecided.len()),
            )
            &&& undisturbed(m, 0, m.bytes.len() as int) ==> (m.run(input).exit <==> occurs(
                m.bytes,
                typed,
            ))
        }),
{
    let none = Seq::<u8>::empty();
    let typed = without_reports(m.bytes, m.prefix, none, input);
    let r = m.run(input);
    let decided = typed.len() - r.next.held.len();
    lemma_longest_fits(m.bytes, none);
    assert(m.held + input =~= input);
    lemma_scan(m, none, input);
    law_live_accepts_everything(m, input);
    law_exit_iff_complete(m, input);
    if r.exit {
        assert(typed.take(typed.len() as int) =~= typed);
        assert(r.next.held =~= typed.subrange(typed.len() as int, typed.len() as int));
    } else {
        assert(typed.subrange(decided, typed.len() as int) =~= r.next.held);
        if r.next.held.len() == 0 {
            assert(typed.take(decided) =~= typed);
        } else if undisturbed(m, 0, m.bytes.len() as int) {
            lemma_no_occurrence_in_candidate(r.next, typed.take(decided), r.next.held);
        }
    }
}

/// Nothing is dropped before the sequence is complete.
proof fn lemma_drops_only_on_exit(m: Matcher, s: Seq<u8>)
    ensures
        !m.compare_all(s).exit ==> m.compare_all(s).dropped == Seq::<u8>::empty(),
    decreases s.len(),
{
    if s.len() > 0 {
        lemma_drops_only_on_exit(m.compare(s[0]).next, s.skip(1));
    }
}

/// One byte of input is one step.
proof fn lemma_single(m: Matcher, c: u8)
    ensures
        m.run(seq![c]) == m.step(c),
{
    let apart = m.set_apart(c);
    lemma_drops_only_on_exit(Matcher { held: apart.held, ..m }, apart.released.push(c));
    reveal_with_fuel(Matcher::run, 2);
    assert(seq![c].skip(1).len() == 0);
    assert(m.step(c).out + Seq::<u8>::empty() =~= m.step(c).out);
}

/// A byte that is not taken for a report, with nothing kept back, is simply
/// compared.
proof fn lemma_plain_step(m: Matcher, c: u8)
    requires
        m.held.len() == 0,
        !m.swallows(c),
    ensures
        m.step(c) == m.compare(c),
{
    reveal_with_fuel(Matcher::compare_all, 2);
    let base = Matcher { held: seq![], ..m };
    assert(base =~= m);
    assert(m.held.push(c) =~= seq![c]);
    assert(seq![c].skip(1) =~= seq![]);
    assert(m.compare(c).out + Seq::<u8>::empty() =~= m.compare(c).out);
}

/// With nothing kept back, only an escape character after a newline of the
/// prefix is taken for a report.
proof fn lemma_swallows_first(m: Matcher, c: u8)
    requires
        m.held.len() == 0,
    ensures
        m.swallows(c) <==> m.watching() && c == ESC,
{
    assert(m.held.push(c) =~= seq![c]);
    lemma_first_byte(c);
}

/// Input that continues a match up to position `k` takes the filter there.
proof fn lemma_match_runs(m: Matcher, k: int)
    requires
        m.wf(),
        m.live(),
        m.held.len() == 0,
        m.pos <= k <= m.bytes.len(),
        undisturbed(m, m.pos as int, k),
    ensures
        ({
            let r = m.run(m.bytes.subrange(m.pos as int, k));
            &&& r.exit <==> k == m.bytes.len()
            &&& r.used == k - m.pos
            &&& r.dropped.len() == 0
            &&& r.next == (Matcher { pos: k as nat, ..m })
        }),
    decreases k,
{
    let part = m.bytes.subrange(m.pos as int, k);
    if k == m.pos {
        assert(part =~= seq![]);
    } else {
        let shorter = m.bytes.subrange(m.pos as int, k - 1);
        let c = m.bytes[k - 1];
        lemma_match_runs(m, k - 1);
        let mid = m.run(shorter).next;
        assert(part =~= shorter + seq![c]);
        law_calls_compose(m, shorter, seq![c]);
        lemma_swallows_first(mid, c);
        lemma_single(mid, c);
        lemma_plain_step(mid, c);
        lemma_next_pos_of_match(mid);
    }
}

/// While the sequence is being typed from the start, exactly the bytes of the
/// prefix go through, and the rest is kept back.
pub proof fn law_prefix_goes_through(m: Matcher, k: int)
    requires
        m.wf(),
        m.pos == 0,
        0 <= k < m.bytes.len(),
        undisturbed(m, 0, k),
    ensures
        !m.run(m.bytes.take(k)).exit,
        m.run(m.bytes.take(k)).out == m.bytes.take(if k <= m.prefix {
            k
        } else {
            m.prefix as int
        }),
        m.run(m.bytes.take(k)).next == (Matcher { pos: k as nat, ..m }),
{
    let typed = m.bytes.take(k);
    let r = m.run(typed);
    let through = if k <= m.prefix {
        k
    } else {
        m.prefix as int
    };
    lemma_match_runs(m, k);
    assert(m.bytes.subrange(0, k) =~= typed);
    law_live_accepts_everything(m, typed);
    law_conservation(m, typed);
    assert(m.pending() + typed =~= typed);
    assert(r.next.pending() =~= m.bytes.subrange(through, k));
    assert(typed =~= m.bytes.take(through) + m.bytes.subrange(through, k));
    assert(r.out =~= typed.take(r.out.len() as int));
    assert(m.bytes.take(through) =~= typed.take(through));
}

proof fn lemma_feeding_keeps_up(m: Matcher, j: int)
    requires
        m.wf(),
        m.live(),
        m.held.len() == 0,
        m.watching() ==> m.bytes[0] != ESC,
        undisturbed(m, 0, m.bytes.len() as int),
        0 <= j <= m.bytes.len(),
    ensures
        ({
            let r = m.run(m.bytes.take(j));
            r.exit || {
                &&& r.next.held.len() == 0
                &&& r.next.wf()
                &&& r.next.live()
                &&& r.next.bytes == m.bytes
                &&& r.next.prefix == m.prefix
                &&& j > 0 ==> ends_in(m.bytes, m.bytes.take(r.next.pos as int), j as nat)
                &&& j > 0 ==> r.next.pos > 0 && m.bytes[r.next.pos - 1] == m.bytes[j - 1]
                &&& j == 0 ==> r.next == m
            }
        }),
    decreases j,
{
    if j == 0 {
        assert(m.bytes.take(0) =~= seq![]);
    } else {
        let c = m.bytes[j - 1];
        let shorter = m.bytes.take(j - 1);
        lemma_feeding_keeps_up(m, j - 1);
        assert(m.bytes.take(j) =~= shorter + seq![c]);
        law_calls_compose(m, shorter, seq![c]);
        let mid = m.run(shorter).next;
        if !m.run(shorter).exit {
            let before = m.bytes.take(mid.pos as int);
            lemma_ends_in_bytes(m.bytes, before, (j - 1) as nat);
            lemma_swallows_first(mid, c);
            lemma_single(mid, c);
            lemma_plain_step(mid, c);
            lemma_next_pos_bounds(mid, c);
            let text = before.push(c);
            let k = mid.next_pos(c);
            lemma_longest_upto(m.bytes, text, m.bytes.len());
            lemma_ends_in_bytes(m.bytes, text, j as nat);
            assert forall|i: int| 0 <= i < j implies #[trigger] m.bytes[i] == text[text.len() - j
                + i] by {
                if i < j - 1 {
                    assert(m.bytes[i] == before[before.len() - (j - 1) + i]);
                }
            }
            assert(ends_in(m.bytes, text, j as nat));
            assert(k >= j);
            lemma_ends_in_bytes(m.bytes, text, k);
            let after = m.bytes.take(k as int);
            lemma_ends_in_bytes(m.bytes, after, j as nat);
            assert forall|i: int| 0 <= i < j implies #[trigger] m.bytes[i] == after[k - j + i] by {
                assert(m.bytes[k - j + i] == text[text.len() - k + (k - j + i)]);
            }
        }
    }
}

/// The sequence is recognised: typed in one go, it makes `process` return true,
/// whatever was typed before it, even if that is the beginning of another
/// match. The exceptions are those where its bytes can be taken for a Cursor
/// Position Report: an unfinished one is kept back, one could begin with its
/// first byte, or an escape character follows a newline of its prefix.
///
/// If no match is pending before, that is on its last byte and with only the
/// prefix let through.
pub proof fn law_sequence_is_recognised(m: Matcher)
    requires
        m.wf(),
        m.live(),
        m.held.len() == 0,
        m.watching() ==> m.bytes[0] != ESC,
        undisturbed(m, 0, m.bytes.len() as int),
    ensures
        m.run(m.bytes).exit,
        m.pos == 0 ==> m.run(m.bytes).used == m.bytes.len(),
        m.pos == 0 ==> m.run(m.bytes).out + m.suppressed() == m.bytes,
{
    let len = m.bytes.len() as int;
    assert(m.bytes.take(len) =~= m.bytes);
    lemma_feeding_keeps_up(m, len);
    let r = m.run(m.bytes);
    if !r.exit {
        lemma_ends_in_bytes(m.bytes, m.bytes.take(r.next.pos as int), len as nat);
    }
    if m.pos == 0 {
        assert(m.bytes.subrange(0, len) =~= m.bytes);
        lemma_match_runs(m, len);
        law_live_accepts_everything(m, m.bytes);
        law_conservation(m, m.bytes);
        assert(m.pending() + m.bytes =~= m.bytes);
        assert(r.out + m.suppressed() + r.dropped =~= r.out + m.suppressed());
    }
}

/// Only what is typed after the sequence is dropped: nothing at all of what was
/// looked at, unless an escape character follows a newline of the prefix.
pub proof fn law_nothing_is_dropped(m: Matcher, input: Seq<u8>)
    requires
        m.wf(),
        m.live(),
        undisturbed(m, 0, m.bytes.len() as int),
    ensures
        m.run(input).dropped.len() == 0,
    decreases input.len(),
{
    if input.len() > 0 {
        let c = input[0];
        let first = m.step(c);
        lemma_step_keeps_invariant(m, c);
        if first.exit {
            let base = Matcher { held: seq![], ..m };
            let grown = m.held.push(c);
            let r = base.compare_all(grown);
            let text = m.bytes.take(m.pos as int);
            lemma_compare_all_keeps_invariant(base, grown);
            lemma_ends_in_bytes(m.bytes, text, m.pos);
            assert forall|j: nat| m.pos < j <= m.bytes.len() implies !#[trigger] ends_in(
                m.bytes,
                text,
                j,
            ) by {
                lemma_ends_in_bytes(m.bytes, text, j);
            }
            lemma_longest_is(m.bytes, text, m.pos);
            lemma_compare_all_scans(base, text, grown);
            if r.used < grown.len() {
                let part = m.held.take(r.used as int);
                assert(grown.take(r.used as int) =~= part);
                if m.held.len() > 0 {
                    lemma_no_occurrence_in_candidate(m, text, m.held);
                    assert(text + m.held =~= (text + part) + m.held.skip(r.used as int));
                    lemma_occurs_in_longer(m.bytes, text + part, m.held.skip(r.used as int));
                } else {
                    assert(text + part =~= text);
                }
            }
        } else {
            law_nothing_is_dropped(first.next, input.skip(1));
        }
    }
}

proof fn lemma_report_is_held(m: Matcher, r: Seq<u8>, n: int)
    requires
        m.wf(),
        m.watching(),
        m.held.len() == 0,
        is_report(r),
        0 <= n < r.len(),
    ensures
        m.accepts(r.take(n)),
        m.run(r.take(n)) == (Progress {
            next: Matcher { held: r.take(n), ..m },
            out: seq![],
            exit: false,
            used: n as nat,
            dropped: seq![],
        }),
    decreases n,
{
    if n == 0 {
        assert(r.take(0) =~= seq![]);
        assert(m.held =~= seq![]);
    } else {
        let c = r[n - 1];
        lemma_report_is_held(m, r, n - 1);
        assert(r.take(n) =~= r.take(n - 1) + seq![c]);
        assert(r.take(n) =~= r.take(n - 1).push(c));
        lemma_beginnings_of_report(r, n);
        let mid = m.run(r.take(n - 1)).next;
        law_calls_compose(m, r.take(n - 1), seq![c]);
        lemma_single(mid, c);
        lemma_accepts_single(mid, c);
        assert(m.run(r.take(n)).out =~= seq![]);
    }
}

proof fn lemma_accepts_single(m: Matcher, c: u8)
    ensures
        m.accepts(seq![c]) == m.accepts_byte(c),
{
    reveal_with_fuel(Matcher::accepts, 2);
    assert(seq![c].skip(1).len() == 0);
}

/// A Cursor Position Report that answers a newline of the prefix is let
/// through whole, and leaves the match where it was.
pub proof fn law_report_goes_through(m: Matcher, r: Seq<u8>)
    requires
        m.wf(),
        m.watching(),
        m.held.len() == 0,
        is_report(r),
    ensures
        m.accepts(r),
        m.run(r) == (Progress {
            next: m,
            out: r,
            exit: false,
            used: r.len(),
            dropped: seq![],
        }),
{
    let n = r.len() - 1;
    let c = r[n];
    lemma_report_is_held(m, r, n);
    assert(r =~= r.take(n) + seq![c]);
    assert(r =~= r.take(n).push(c));
    lemma_beginnings_of_report(r, n + 1);
    assert(r.take(n + 1) =~= r);
    law_calls_compose(m, r.take(n), seq![c]);
    lemma_single(m.run(r.take(n)).next, c);
    lemma_accepts_single(m.run(r.take(n)).next, c);
    assert(m.held =~= seq![]);
    assert(m.run(r).out =~= r);
}

/// So whether the sequence is recognised does not depend on the report: with
/// it and without it, the state is the same in the end, the output differs by
/// the report alone, and the sequence is completed in both cases or in neither.
pub proof fn law_report_does_not_disturb_the_match(
    m: Matcher,
    a: Seq<u8>,
    r: Seq<u8>,
    b: Seq<u8>,
)
    requires
        m.wf(),
        m.accepts(a + b),
        !m.run(a).exit,
        m.run(a).next.watching(),
        m.run(a).next.held.len() == 0,
        is_report(r),
    ensures
        m.accepts(a + r + b),
        m.run(a + r + b).next == m.run(a + b).next,
        m.run(a + r + b).exit == m.run(a + b).exit,
        m.run(a + b).out == m.run(a).out + m.run(a).next.run(b).out,
        m.run(a + r + b).out == m.run(a).out + r + m.run(a).next.run(b).out,
{
    law_calls_compose(m, a, b);
    law_exit_iff_complete(m, a);
    law_report_goes_through(m.run(a).next, r);
    law_calls_compose(m, a, r);
    law_calls_compose(m, a + r, b);
}

} // verus!
