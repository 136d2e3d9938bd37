//! What holds of the escape-sequence filter as a whole.
//!
//! The contract of `EscapeSequence::process` says that a call does to the
//! filter's state what [`Matcher::run`] does to the [`Matcher`] that stands for
//! it, so each law about `run` is a law about calls of `process`.

use crate::cursor::{is_partial_report, is_report, lemma_complete_iff_final_byte, CAPITAL_R};
use crate::matcher::{
    lemma_ends_in_bytes, lemma_longest_fits, lemma_next_pos_bounds, Matcher, Progress,
};
use vstd::prelude::*;

verus! {

/// Comparing bytes with the sequence keeps the invariant and the configuration;
/// it stops short only at the byte that completes the sequence.
pub proof fn lemma_compare_all_keeps_invariant(m: Matcher, s: Seq<u8>)
    requires
        m.wf(),
        m.live(),
        m.held.len() == 0,
    ensures
        ({
            let r = m.compare_all(s);
            &&& r.next.wf()
            &&& r.next.bytes == m.bytes
            &&& r.next.prefix == m.prefix
            &&& r.next.held.len() == 0
            &&& r.exit <==> !r.next.live()
            &&& r.used <= s.len()
            &&& !r.exit ==> r.used == s.len() && r.dropped == Seq::<u8>::empty()
            &&& r.exit ==> r.dropped == s.skip(r.used as int)
        }),
    decreases s.len(),
{
    if s.len() > 0 {
        lemma_next_pos_bounds(m, s[0]);
        let first = m.compare(s[0]);
        if !first.exit {
            let later = first.next.compare_all(s.skip(1));
            lemma_compare_all_keeps_invariant(first.next, s.skip(1));
            assert(s.skip(1).skip(later.used as int) =~= s.skip(later.used as int + 1));
        }
    }
}

/// One byte keeps the invariant and the configuration, and the sequence is
/// complete afterwards exactly if this byte completed it.
pub proof fn lemma_step_keeps_invariant(m: Matcher, c: u8)
    requires
        m.wf(),
        m.accepts_byte(c),
    ensures
        m.step(c).next.wf(),
        m.step(c).next.bytes == m.bytes,
        m.step(c).next.prefix == m.prefix,
        m.live() ==> (m.step(c).exit <==> !m.step(c).next.live()),
        m.step(c).exit ==> m.step(c).next.pos == m.bytes.len(),
{
    let apart = m.set_apart(c);
    if !apart.swallowed {
        lemma_compare_all_keeps_invariant(
            Matcher { held: apart.held, ..m },
            apart.released.push(c),
        );
    }
}

/// The configuration never changes, the invariant is kept, and `process`
/// returns true exactly if the whole sequence has been matched.
pub proof fn law_exit_iff_complete(m: Matcher, input: Seq<u8>)
    requires
        m.wf(),
        m.accepts(input),
    ensures
        m.run(input).next.wf(),
        m.run(input).next.bytes == m.bytes,
        m.run(input).next.prefix == m.prefix,
        m.run(input).used <= input.len(),
        !m.run(input).exit ==> m.run(input).used == input.len(),
        m.live() ==> (m.run(input).exit <==> m.run(input).next.pos == m.bytes.len()),
    decreases input.len(),
{
    if input.len() > 0 {
        lemma_step_keeps_invariant(m, input[0]);
        if !m.step(input[0]).exit {
            law_exit_iff_complete(m.step(input[0]).next, input.skip(1));
        }
    }
}

/// A filter that still waits for a byte copes with any input.
pub proof fn law_live_accepts_everything(m: Matcher, input: Seq<u8>)
    requires
        m.wf(),
        m.live(),
    ensures
        m.accepts(input),
    decreases input.len(),
{
    if input.len() > 0 {
        lemma_step_keeps_invariant(m, input[0]);
        if !m.step(input[0]).exit {
            law_live_accepts_everything(m.step(input[0]).next, input.skip(1));
        }
    }
}

/// How the input is cut into calls makes no difference: two calls, one after
/// the other, release together what a single call would, leave the same state,
/// and complete the sequence if it would. Input after a completed sequence is
/// dropped.
pub proof fn law_calls_compose(m: Matcher, a: Seq<u8>, b: Seq<u8>)
    ensures
        m.run(a).exit ==> m.run(a + b) == m.run(a),
        !m.run(a).exit ==> m.run(a + b) == m.run(a).before(m.run(a).next.run(b)),
        m.accepts(a + b) <==> m.accepts(a) && (m.run(a).exit || m.run(a).next.accepts(b)),
    decreases a.len(),
{
    if a.len() == 0 {
        assert(a + b =~= b);
        assert(m.run(a).before(m.run(b)).out =~= m.run(b).out);
    } else {
        let first = m.step(a[0]);
        assert((a + b)[0] == a[0]);
        assert((a + b).skip(1) =~= a.skip(1) + b);
        if !first.exit {
            law_calls_compose(first.next, a.skip(1), b);
            let mid = first.next.run(a.skip(1));
            if !mid.exit {
                let end = mid.next.run(b);
                assert(first.out + (mid.out + end.out) =~= (first.out + mid.out) + end.out);
            }
        }
    }
}

/// Successive calls, one for each chunk, until one of them returns true.
pub open spec fn run_calls(m: Matcher, chunks: Seq<Seq<u8>>) -> Progress
    decreases chunks.len(),
{
    if chunks.len() == 0 {
        m.run(seq![])
    } else {
        let first = m.run(chunks[0]);
        if first.exit {
            first
        } else {
            first.before(run_calls(first.next, chunks.skip(1)))
        }
    }
}

/// All chunks, joined together.
pub open spec fn join(chunks: Seq<Seq<u8>>) -> Seq<u8>
    decreases chunks.len(),
{
    if chunks.len() == 0 {
        seq![]
    } else {
        chunks[0] + join(chunks.skip(1))
    }
}

/// Any number of successive calls do together what one call does with all
/// their input.
pub proof fn law_calls_are_one_call(m: Matcher, chunks: Seq<Seq<u8>>)
    ensures
        run_calls(m, chunks) == m.run(join(chunks)),
    decreases chunks.len(),
{
    if chunks.len() > 0 {
        let first = m.run(chunks[0]);
        law_calls_compose(m, chunks[0], join(chunks.skip(1)));
        law_calls_are_one_call(first.next, chunks.skip(1));
    }
}

/// Setting a report apart loses nothing either: what is kept back and what is
/// released make up what was kept back before, and the byte if it is taken for
/// a part of a report. Only such a byte that does not end the report releases
/// nothing; after any other nothing is kept back. The match stays as it is.
pub proof fn law_setting_apart_conserves(m: Matcher, c: u8)
    requires
        m.wf(),
    ensures
        m.set_apart(c).released + m.set_apart(c).held == m.held + if m.set_apart(c).swallowed {
            seq![c]
        } else {
            seq![]
        },
        if m.set_apart(c).swallowed && c != CAPITAL_R {
            m.set_apart(c).released.len() == 0
        } else {
            m.set_apart(c).held.len() == 0
        },
        m.set_apart(c).swallowed ==> m.step(c).next == (Matcher {
            held: m.set_apart(c).held,
            ..m
        }),
{
    let apart = m.set_apart(c);
    if apart.swallowed {
        lemma_complete_iff_final_byte(m.held.push(c));
        assert(apart.released + apart.held =~= m.held + seq![c]);
    } else {
        assert(apart.released + apart.held =~= m.held + Seq::<u8>::empty());
    }
}

proof fn lemma_compare_conserves(m: Matcher, c: u8)
    requires
        m.wf(),
        m.live(),
    ensures
        !m.compare(c).exit ==> m.withheld().push(c) == m.compare(c).out + m.compare(
            c,
        ).next.withheld(),
        m.compare(c).exit ==> m.withheld().push(c) == m.compare(c).out + m.suppressed(),
{
    let text = m.bytes.take(m.pos as int).push(c);
    let k = m.next_pos(c);
    let next = m.compare(c).next;
    let known = m.withheld().push(c);
    lemma_next_pos_bounds(m, c);
    lemma_longest_fits(m.bytes, text);
    lemma_ends_in_bytes(m.bytes, text, k);
    if m.compare(c).exit {
        assert(known =~= m.suppressed());
        assert(Seq::<u8>::empty() + m.suppressed() =~= m.suppressed());
    } else {
        let cut = known.len() - next.withheld().len();
        assert(0 <= cut <= known.len());
        assert(known.skip(cut) =~= next.withheld()) by {
            assert forall|i: int| 0 <= i < next.withheld().len() implies #[trigger] known[cut + i]
                == next.withheld()[i] by {
                assert(next.withheld()[i] == m.bytes[m.prefix + i]);
                assert(m.bytes[m.prefix + i] == text[text.len() - k + (m.prefix + i)]);
            }
        }
        assert(known =~= known.take(cut) + known.skip(cut));
    }
}

proof fn lemma_compare_all_conserves(m: Matcher, s: Seq<u8>)
    requires
        m.wf(),
        m.live(),
        m.held.len() == 0,
    ensures
        !m.compare_all(s).exit ==> m.withheld() + s == m.compare_all(s).out + m.compare_all(
            s,
        ).next.withheld(),
        m.compare_all(s).exit ==> m.withheld() + s == m.compare_all(s).out + m.suppressed()
            + m.compare_all(s).dropped,
    decreases s.len(),
{
    if s.len() == 0 {
        assert(m.withheld() + s =~= Seq::<u8>::empty() + m.withheld());
    } else {
        let c = s[0];
        let first = m.compare(c);
        lemma_compare_conserves(m, c);
        lemma_next_pos_bounds(m, c);
        assert(s =~= seq![c] + s.skip(1));
        if first.exit {
            assert(m.withheld() + s =~= m.withheld().push(c) + s.skip(1));
        } else {
            let later = first.next.compare_all(s.skip(1));
            lemma_compare_all_conserves(first.next, s.skip(1));
            if later.exit {
                assert(later.out + m.suppressed() + later.dropped =~= later.out + (m.suppressed()
                    + later.dropped));
                lemma_join(
                    m.withheld(),
                    c,
                    first.out,
                    first.next.withheld(),
                    s.skip(1),
                    later.out,
                    m.suppressed() + later.dropped,
                );
                assert(first.out + later.out + (m.suppressed() + later.dropped) =~= first.out
                    + later.out + m.suppressed() + later.dropped);
            } else {
                lemma_join(
                    m.withheld(),
                    c,
                    first.out,
                    first.next.withheld(),
                    s.skip(1),
                    later.out,
                    later.next.withheld(),
                );
            }
        }
    }
}

proof fn lemma_step_conserves(m: Matcher, c: u8)
    requires
        m.wf(),
        m.accepts_byte(c),
    ensures
        !m.step(c).exit ==> m.pending().push(c) == m.step(c).out + m.step(c).next.pending(),
        m.step(c).exit ==> m.pending().push(c) == m.step(c).out + m.suppressed() + m.step(
            c,
        ).dropped,
{
    let apart = m.set_apart(c);
    let r = m.step(c);
    law_setting_apart_conserves(m, c);
    if apart.swallowed {
        assert(m.pending().push(c) =~= m.withheld() + (m.held + seq![c]));
        assert(r.next.withheld() == m.withheld());
        assert(m.withheld().len() == 0);
        assert(m.pending().push(c) =~= r.out + r.next.pending());
    } else {
        let rest = Matcher { held: apart.held, ..m };
        let s = apart.released.push(c);
        lemma_compare_all_conserves(rest, s);
        lemma_compare_all_keeps_invariant(rest, s);
        assert(rest.withheld() == m.withheld());
        assert(m.pending().push(c) =~= m.withheld() + s);
        assert(r.next.pending() =~= r.next.withheld());
    }
}

/// Nothing is lost, added or reordered: the bytes pending before, followed by
/// the bytes typed, are the bytes let through followed by the bytes still
/// pending. Once the sequence is complete, only what [`Matcher::suppressed`]
/// says is missing, and what was typed behind the sequence.
#[verifier::rlimit(50)]
pub proof fn law_conservation(m: Matcher, input: Seq<u8>)
    requires
        m.wf(),
        m.accepts(input),
    ensures
        !m.run(input).exit ==> m.pending() + input == m.run(input).out + m.run(
            input,
        ).next.pending(),
        m.run(input).exit ==> m.pending() + input.take(m.run(input).used as int) == m.run(
            input,
        ).out + m.suppressed() + m.run(input).dropped,
    decreases input.len(),
{
    if input.len() == 0 {
        assert(m.pending() + input =~= m.run(input).out + m.run(input).next.pending());
    } else {
        let c = input[0];
        let first = m.step(c);
        lemma_step_keeps_invariant(m, c);
        lemma_step_conserves(m, c);
        if first.exit {
            assert(m.pending() + input.take(1) =~= m.pending().push(c));
        } else {
            let rest = input.skip(1);
            let later = first.next.run(rest);
            law_exit_iff_complete(first.next, rest);
            law_conservation(first.next, rest);
            if later.exit {
                let n = later.used as int;
                let end = m.suppressed() + later.dropped;
                assert(input.take(n + 1) =~= seq![c] + rest.take(n));
                assert(later.out + m.suppressed() + later.dropped =~= later.out + end);
                lemma_join(
                    m.pending(),
                    c,
                    first.out,
                    first.next.pending(),
                    rest.take(n),
                    later.out,
                    end,
                );
                assert(first.out + later.out + end =~= first.out + later.out + m.suppressed()
                    + later.dropped);
            } else {
                assert(input =~= seq![c] + rest);
                lemma_join(
                    m.pending(),
                    c,
                    first.out,
                    first.next.pending(),
                    rest,
                    later.out,
                    later.next.pending(),
                );
            }
        }
    }
}

/// Two balanced stretches make a balanced whole.
proof fn lemma_join(
    start: Seq<u8>,
    c: u8,
    out1: Seq<u8>,
    middle: Seq<u8>,
    rest: Seq<u8>,
    out2: Seq<u8>,
    end: Seq<u8>,
)
    requires
        start.push(c) == out1 + middle,
        middle + rest == out2 + end,
    ensures
        start + (seq![c] + rest) == (out1 + out2) + end,
{
    assert(start + (seq![c] + rest) =~= start.push(c) + rest);
    assert((out1 + middle) + rest =~= out1 + (middle + rest));
    assert(out1 + (out2 + end) =~= (out1 + out2) + end);
}

/// What is kept back while the sequence is incomplete is either the matched
/// bytes beyond the prefix, at least one byte short of the sequence, or an
/// unfinished Cursor Position Report: never both.
pub proof fn law_pending_is_part_of_one_candidate(m: Matcher)
    requires
        m.wf(),
        m.live(),
    ensures
        m.pending() == m.withheld() || m.pending() == m.held,
        m.withheld().len() < m.bytes.len(),
        m.held.len() > 0 ==> is_partial_report(m.held) && !is_report(m.held),
        m.pos == 0 ==> m.pending().len() == 0,
{
    assert(m.held.len() == 0 ==> m.pending() =~= m.withheld());
    assert(m.withheld().len() == 0 ==> m.pending() =~= m.held);
}

} // verus!
