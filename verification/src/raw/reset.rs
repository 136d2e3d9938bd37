//! Resetting a terminal from an indeterminate state, with the strings that the
//! terminfo database has for it (similar to `tput reset`).

use vstd::prelude::*;
use vstd::utf8::{decode_utf8, valid_utf8};

verus! {

/// How far the reset is. The order is that of the terminfo(5) manpage:
/// "Sequences that do a reset from a totally unknown state can be given as
/// rs1, rs2, rf and rs3".
#[derive(Clone, Copy, PartialEq, Eq, Structural, Debug)]
pub enum Stage {
    /// The string `rs1` is to be emitted.
    Reset1,
    /// The string `rs2` is to be emitted.
    Reset2,
    /// The file named by `rf` is to be emitted.
    File,
    /// The string `rs3` is to be emitted.
    Reset3,
    /// Nothing is left to be emitted.
    Done,
}

impl Stage {
    /// The stage after this one.
    pub open spec fn successor(self) -> Stage {
        match self {
            Stage::Reset1 => Stage::Reset2,
            Stage::Reset2 => Stage::File,
            Stage::File => Stage::Reset3,
            Stage::Reset3 => Stage::Done,
            Stage::Done => Stage::Done,
        }
    }

    /// Where the reset begins: without a database that knows the terminal,
    /// there is nothing to do.
    pub fn first(database_found: bool) -> (stage: Stage)
        ensures
            stage == if database_found {
                Stage::Reset1
            } else {
                Stage::Done
            },
    {
        if database_found {
            Stage::Reset1
        } else {
            Stage::Done
        }
    }

    /// Where the reset goes on, whatever came of this stage: a capability that
    /// the terminal lacks, or that cannot be emitted, is passed over.
    pub fn next(&self) -> (stage: Stage)
        ensures
            stage == self.successor(),
    {
        match self {
            Stage::Reset1 => Stage::Reset2,
            Stage::Reset2 => Stage::File,
            Stage::File => Stage::Reset3,
            Stage::Reset3 => Stage::Done,
            Stage::Done => Stage::Done,
        }
    }
}

/// `String::from_utf8`: the text that `bytes` encode, if they are valid UTF-8.
#[verifier::external_body]
fn string_from_utf8(bytes: Vec<u8>) -> (text: Option<String>)
    ensures
        text is Some <==> valid_utf8(bytes@),
        text matches Some(t) ==> t@ == decode_utf8(bytes@),
{
    String::from_utf8(bytes).ok()
}

/// The file to be copied to the terminal, given what the `rf` capability
/// expands to: none if it does not expand, or to something that is not text.
pub fn reset_file(expanded: Option<Vec<u8>>) -> (path: Option<String>)
    ensures
        path is Some <==> (expanded matches Some(bytes) && valid_utf8(bytes@)),
        path matches Some(p) ==> p@ == decode_utf8(expanded->0@),
{
    match expanded {
        Some(path_vec) => string_from_utf8(path_vec),
        None => None,
    }
}

/// The stages, in the order in which they are reached.
pub open spec fn stage_at(n: nat) -> Stage
    decreases n,
{
    if n == 0 {
        Stage::Reset1
    } else {
        stage_at((n - 1) as nat).successor()
    }
}

/// Every capability gets its turn, in the documented order, and then the reset
/// is over.
pub proof fn law_reset_order(n: nat)
    ensures
        stage_at(0) == Stage::Reset1,
        stage_at(1) == Stage::Reset2,
        stage_at(2) == Stage::File,
        stage_at(3) == Stage::Reset3,
        n >= 4 ==> stage_at(n) == Stage::Done,
    decreases n,
{
    reveal_with_fuel(stage_at, 5);
    if n > 4 {
        law_reset_order((n - 1) as nat);
    }
}

} // verus!
