//! Outcome signals of the rules engine: recoverable rule rejections and
//! terminal signals.

use vstd::prelude::*;

verus! {

/// Signals reported by the rules engine. The rule rejections
/// (`InducesSuicide`, `OccupiedCase`, `BreakingKo`, `BreakingSuperKo`,
/// `OutsideBounds`) are recoverable: the caller must retry with a different
/// move. `GameOver` and `DoublePass` are terminal signals that end the
/// driving loop.
#[derive(Clone, Copy, PartialEq, Eq, Structural, Debug)]
pub enum Signals {
    InducesSuicide,
    OccupiedCase,
    BreakingKo,
    BreakingSuperKo,
    OutsideBounds,
    GameOver,
    DoublePass,
}

impl Signals {
    /// A human-readable description of the signal.
    pub fn message(&self) -> (r: &'static str)
        ensures
            (*self is InducesSuicide) ==> r@ == "Move induces suicide with no capture"@,
            (*self is OccupiedCase) ==> r@ == "Move on an occupied case"@,
            (*self is BreakingKo) ==> r@ == "Ko rule is not respected"@,
            (*self is BreakingSuperKo) ==> r@ == "Super Ko rule is not respected"@,
            (*self is OutsideBounds) ==> r@ == "Tried to place a stone outside of board"@,
            (*self is GameOver) ==> r@ == "Game is over"@,
            (*self is DoublePass) ==> r@ == "Both players have passed"@,
    {
        match self {
            Signals::InducesSuicide => "Move induces suicide with no capture",
            Signals::OccupiedCase => "Move on an occupied case",
            Signals::BreakingKo => "Ko rule is not respected",
            Signals::BreakingSuperKo => "Super Ko rule is not respected",
            Signals::OutsideBounds => "Tried to place a stone outside of board",
            Signals::GameOver => "Game is over",
            Signals::DoublePass => "Both players have passed",
        }
    }
}

} // verus!
