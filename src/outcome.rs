//! The tri-state result of a game and its stored integer code.
use vstd::prelude::*;
use crate::text::ascii_of;

verus! {

#[derive(Debug, Clone, Copy, PartialEq, Eq, Structural)]
pub enum Outcome {
    WhiteWins,
    BlackWins,
    Draw,
}

impl Outcome {
    /// White win is 1, black win 2, draw 3; no outcome has code 0.
    pub open spec fn spec_code(self) -> int {
        match self {
            Outcome::WhiteWins => 1,
            Outcome::BlackWins => 2,
            Outcome::Draw => 3,
        }
    }

    pub fn code(&self) -> (r: u8)
        ensures
            r == self.spec_code(),
            1 <= r <= 3,
    {
        match self {
            Outcome::WhiteWins => 1,
            Outcome::BlackWins => 2,
            Outcome::Draw => 3,
        }
    }
}

/// The outcome that a result tag value spells, if it is a decided one.
pub open spec fn result_outcome(b: Seq<u8>) -> Option<Outcome> {
    if b == ascii_of("1-0"@) {
        Some(Outcome::WhiteWins)
    } else if b == ascii_of("0-1"@) {
        Some(Outcome::BlackWins)
    } else if b == ascii_of("1/2-1/2"@) {
        Some(Outcome::Draw)
    } else {
        None
    }
}

/// Relies on pgn_reader::Outcome::from_ascii: "1-0", "0-1" and "1/2-1/2"
/// decode to white win, black win and draw; every other value is an error.
#[verifier::external_body]
pub(crate) fn parse_result(b: &[u8]) -> (r: Option<Outcome>)
    ensures
        r == result_outcome(b@),
{
    match pgn_reader::Outcome::from_ascii(b) {
        Ok(pgn_reader::Outcome::Decisive { winner: pgn_reader::Color::White }) => Some(Outcome::WhiteWins),
        Ok(pgn_reader::Outcome::Decisive { winner: pgn_reader::Color::Black }) => Some(Outcome::BlackWins),
        Ok(pgn_reader::Outcome::Draw) => Some(Outcome::Draw),
        Err(_) => None,
    }
}

} // verus!
