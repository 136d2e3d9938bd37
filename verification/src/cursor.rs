//! ANSI Cursor Position Reports, and the regular expression that recognises
//! them while they are still arriving.
//!
//! A report is `CSI row ; column R`, for example `"\x1b[14;30R"`. A shell may
//! ask the terminal for one after every newline, so the answer can show up in
//! the middle of what the user types.

use regex::bytes::Regex as BytesRegex;
use regex::Error as PatternError;
use vstd::prelude::*;

verus! {

/// The escape character, first byte of every report.
pub const ESC: u8 = 0x1b;

/// `[`, second byte of every report.
pub const OPEN_BRACKET: u8 = 0x5b;

/// `;`, between row and column.
pub const SEMICOLON: u8 = 0x3b;

/// `R`, last byte of every report.
pub const CAPITAL_R: u8 = 0x52;

/// Matches partial prefixes of `CSI row ; column R`.
pub const CURSOR_PATTERN: &'static str = "^\x1b(\\[([0-9]+(;([0-9]+R?)?)?)?)?$";

/// A decimal number as the terminal writes it: one or more ASCII digits.
pub open spec fn is_number(s: Seq<u8>) -> bool {
    &&& s.len() > 0
    &&& forall|i: int| 0 <= i < s.len() ==> 0x30 <= #[trigger] s[i] <= 0x39
}

/// The report that gives `row` and `col`.
pub open spec fn report(row: Seq<u8>, col: Seq<u8>) -> Seq<u8> {
    seq![ESC, OPEN_BRACKET] + row + seq![SEMICOLON] + col + seq![CAPITAL_R]
}

/// `s` is a Cursor Position Report.
pub open spec fn is_report(s: Seq<u8>) -> bool {
    exists|row: Seq<u8>, col: Seq<u8>|
        is_number(row) && is_number(col) && s == #[trigger] report(row, col)
}

/// `s` is the beginning of a Cursor Position Report, possibly all of it.
pub open spec fn is_partial_report(s: Seq<u8>) -> bool {
    &&& s.len() > 0
    &&& exists|row: Seq<u8>, col: Seq<u8>|
        is_number(row) && is_number(col) && s.is_prefix_of(#[trigger] report(row, col))
}

/// `regex::bytes::Regex`, opaque to the proofs.
#[verifier::external_type_specification]
#[verifier::external_body]
pub struct ExRegex(BytesRegex);

/// `regex::Error`, opaque to the proofs.
#[verifier::external_type_specification]
#[verifier::external_body]
pub struct ExRegexError(PatternError);

/// The pattern that a compiled expression was made from: what
/// `regex::bytes::Regex::as_str` returns.
pub uninterp spec fn regex_text(re: BytesRegex) -> Seq<char>;

/// `regex::bytes::Regex::new`. What it compiles remembers the pattern it was
/// given, and it does compile [`CURSOR_PATTERN`], which is a valid pattern far
/// below the default size limit. Whether any other pattern compiles, and what
/// an error holds, is left unsaid.
pub assume_specification[ BytesRegex::new ](re: &str) -> (compiled: Result<BytesRegex, PatternError>)
    ensures
        compiled matches Ok(x) ==> regex_text(x) == re@,
        re@ == CURSOR_PATTERN@ ==> compiled is Ok,
;

/// `regex::bytes::Regex::is_match`, for [`CURSOR_PATTERN`]. The pattern is
/// anchored at both ends of the haystack, so there is a match exactly if the
/// whole haystack has the pattern's form: `ESC`, then optionally `[`, then
/// optionally digits, then optionally `;`, then optionally digits, then
/// optionally `R`, each only after the one before it. Those are the non-empty
/// beginnings of a report.
pub assume_specification[ BytesRegex::is_match ](re: &BytesRegex, haystack: &[u8]) -> (found: bool)
    requires
        regex_text(*re) == CURSOR_PATTERN@,
    ensures
        found == is_partial_report(haystack@),
;

/// No byte of a report but the last is an `R`.
proof fn lemma_report_bytes(row: Seq<u8>, col: Seq<u8>, i: int)
    requires
        is_number(row),
        is_number(col),
        0 <= i < report(row, col).len(),
    ensures
        report(row, col).len() == row.len() + col.len() + 4,
        report(row, col)[0] == ESC,
        report(row, col)[i] == CAPITAL_R <==> i == report(row, col).len() - 1,
{
    let r = report(row, col);
    if 2 <= i < 2 + row.len() {
        assert(r[i] == row[i - 2]);
    } else if 3 + row.len() <= i < 3 + row.len() + col.len() {
        assert(r[i] == col[i - 3 - row.len()]);
    }
}

/// A partial report is complete exactly if it ends in `R`.
pub proof fn lemma_complete_iff_final_byte(s: Seq<u8>)
    requires
        is_partial_report(s),
    ensures
        is_report(s) <==> s.last() == CAPITAL_R,
{
    if is_report(s) {
        let (row, col) = choose|row: Seq<u8>, col: Seq<u8>|
            is_number(row) && is_number(col) && s == #[trigger] report(row, col);
        lemma_report_bytes(row, col, s.len() - 1);
    }
    if s.last() == CAPITAL_R {
        let (row, col) = choose|row: Seq<u8>, col: Seq<u8>|
            is_number(row) && is_number(col) && s.is_prefix_of(#[trigger] report(row, col));
        lemma_report_bytes(row, col, s.len() - 1);
        assert(s == report(row, col));
    }
}

/// A lone byte begins a report exactly if it is the escape character.
pub proof fn lemma_first_byte(c: u8)
    ensures
        is_partial_report(seq![c]) <==> c == ESC,
{
    let one = seq![c];
    if is_partial_report(one) {
        let (row, col) = choose|row: Seq<u8>, col: Seq<u8>|
            is_number(row) && is_number(col) && one.is_prefix_of(#[trigger] report(row, col));
        lemma_report_bytes(row, col, 0);
        assert(one[0] == report(row, col)[0]);
    }
    if c == ESC {
        let digit = seq![0x30u8];
        assert(is_number(digit));
        assert(one.is_prefix_of(report(digit, digit)));
    }
}

/// Every non-empty beginning of a report is a partial report, and complete
/// only if nothing is left out.
pub proof fn lemma_beginnings_of_report(r: Seq<u8>, n: int)
    requires
        is_report(r),
        0 < n <= r.len(),
    ensures
        is_partial_report(r.take(n)),
        is_report(r.take(n)) <==> n == r.len(),
{
    let (row, col) = choose|row: Seq<u8>, col: Seq<u8>|
        is_number(row) && is_number(col) && r == #[trigger] report(row, col);
    assert(r.take(n).is_prefix_of(report(row, col)));
    lemma_complete_iff_final_byte(r.take(n));
    lemma_report_bytes(row, col, n - 1);
}

/// Every byte of a partial report is one of those that a report is made of;
/// the first is the escape character, and none is a carriage return or line
/// feed.
pub proof fn lemma_bytes_of_partial_report(s: Seq<u8>, i: int)
    requires
        is_partial_report(s),
        0 <= i < s.len(),
    ensures
        s[0] == ESC,
        s[i] == ESC || s[i] == OPEN_BRACKET || s[i] == SEMICOLON || s[i] == CAPITAL_R || 0x30
            <= s[i] <= 0x39,
{
    let (row, col) = choose|row: Seq<u8>, col: Seq<u8>|
        is_number(row) && is_number(col) && s.is_prefix_of(#[trigger] report(row, col));
    let r = report(row, col);
    lemma_report_bytes(row, col, i);
    assert(s[0] == r[0] && s[i] == r[i]);
    if 2 <= i < 2 + row.len() {
        assert(r[i] == row[i - 2]);
    } else if 3 + row.len() <= i < 3 + row.len() + col.len() {
        assert(r[i] == col[i - 3 - row.len()]);
    }
}

/// No partial report goes on behind a complete one.
pub proof fn lemma_nothing_follows_a_report(s: Seq<u8>, n: int, k: int)
    requires
        0 <= n <= k <= s.len(),
        is_report(s.take(n)),
        is_partial_report(s.take(k)),
    ensures
        n == k,
{
    let (row, col) = choose|row: Seq<u8>, col: Seq<u8>|
        is_number(row) && is_number(col) && s.take(n) == #[trigger] report(row, col);
    lemma_report_bytes(row, col, n - 1);
    let (row1, col1) = choose|row: Seq<u8>, col: Seq<u8>|
        is_number(row) && is_number(col) && s.take(k).is_prefix_of(#[trigger] report(row, col));
    let whole = report(row1, col1);
    assert(s.take(n)[n - 1] == s.take(k)[n - 1]);
    assert(s.take(k)[n - 1] == whole[n - 1]);
    lemma_report_bytes(row1, col1, n - 1);
}

} // verus!
