//! The closed outcome partition: every evaluation of the detector lands in exactly one of four
//! outcomes, and only a determinate start ever begins capture.

use vstd::prelude::*;

verus! {

/// Which end of a meeting a determinate decision marks.
#[derive(Debug, Clone, Copy, PartialEq, Eq, Structural, Hash, PartialOrd, Ord)]
pub enum Phase {
    Start,
    Continue,
    End,
}

/// Why a candidate meeting was not started.
#[derive(Debug, Clone, PartialEq, Eq, Hash)]
pub enum SuppressionReason {
    /// Another adapter's meeting is active with higher or equal precedence.
    LowerPrecedence { active_adapter_id: String },
}

/// Every evaluation lands in exactly one arm.
#[derive(Debug, Clone, PartialEq, Eq, Hash)]
pub enum Outcome {
    Determinate { phase: Phase },
    Unknown,
    Inconclusive,
    Conflicting { suppressed: SuppressionReason },
}

/// An outcome as a value: the suppressing adapter of a conflict by its characters.
pub enum OutcomeView {
    Determinate(Phase),
    Unknown,
    Inconclusive,
    Conflicting(Seq<char>),
}

impl View for Outcome {
    type V = OutcomeView;

    open spec fn view(&self) -> OutcomeView {
        match self {
            Outcome::Determinate { phase } => OutcomeView::Determinate(*phase),
            Outcome::Unknown => OutcomeView::Unknown,
            Outcome::Inconclusive => OutcomeView::Inconclusive,
            Outcome::Conflicting { suppressed: SuppressionReason::LowerPrecedence { active_adapter_id } } =>
                OutcomeView::Conflicting(active_adapter_id@),
        }
    }
}

/// The outcome of the partition for the three facts it reads.
pub open spec fn partition_spec(
    adapter_matched: bool,
    corroboration_met: bool,
    competing_active: Option<Seq<char>>,
) -> OutcomeView {
    if !adapter_matched {
        OutcomeView::Unknown
    } else if !corroboration_met {
        OutcomeView::Inconclusive
    } else {
        match competing_active {
            Some(active) => OutcomeView::Conflicting(active),
            None => OutcomeView::Determinate(Phase::Start),
        }
    }
}

/// `Some` of the characters of a borrowed string, or `None`.
pub open spec fn opt_str_view(o: Option<&str>) -> Option<Seq<char>> {
    match o {
        Some(s) => Some(s@),
        None => None,
    }
}

impl Outcome {
    /// Whether this is the one outcome that starts capture.
    pub fn is_determinate_start(&self) -> (r: bool)
        ensures
            r == (self@ == OutcomeView::Determinate(Phase::Start)),
    {
        match self {
            Outcome::Determinate { phase: Phase::Start } => true,
            _ => false,
        }
    }

    /// An equal outcome.
    pub fn duplicate(&self) -> (r: Outcome)
        ensures
            r@ == self@,
    {
        match self {
            Outcome::Determinate { phase } => Outcome::Determinate { phase: *phase },
            Outcome::Unknown => Outcome::Unknown,
            Outcome::Inconclusive => Outcome::Inconclusive,
            Outcome::Conflicting { suppressed: SuppressionReason::LowerPrecedence { active_adapter_id } } =>
                Outcome::Conflicting {
                suppressed: SuppressionReason::LowerPrecedence {
                    active_adapter_id: active_adapter_id.clone(),
                },
            },
        }
    }
}

/// The total match over `(adapter_matched, corroboration_met, competing_active)`: no adapter is
/// unknown, missing corroboration is inconclusive, a competing active meeting is a conflict
/// naming it, and only the remaining case is a determinate start.
pub fn partition(
    adapter_matched: bool,
    corroboration_met: bool,
    competing_active: Option<&str>,
) -> (o: Outcome)
    ensures
        o@ == partition_spec(adapter_matched, corroboration_met, opt_str_view(competing_active)),
        !adapter_matched ==> o@ == OutcomeView::Unknown,
        adapter_matched && !corroboration_met ==> o@ == OutcomeView::Inconclusive,
        adapter_matched && corroboration_met && competing_active is Some ==> o@ is Conflicting,
        o@ == OutcomeView::Determinate(Phase::Start) <==> (adapter_matched && corroboration_met
            && competing_active is None),
{
    if !adapter_matched {
        Outcome::Unknown
    } else if !corroboration_met {
        Outcome::Inconclusive
    } else {
        match competing_active {
            Some(active) => Outcome::Conflicting {
                suppressed: SuppressionReason::LowerPrecedence {
                    active_adapter_id: active.to_owned(),
                },
            },
            None => Outcome::Determinate { phase: Phase::Start },
        }
    }
}

} // verus!
