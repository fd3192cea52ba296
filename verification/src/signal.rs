//! The ternary utilization signal.

use vstd::prelude::*;
use crate::ratio::{Ratio, relation_to_fraction, frac_le};

verus! {

/// Ternary utilization signal: underutilized, balanced, or overloaded.
#[derive(Debug, Clone, Copy, PartialEq, Eq, Structural)]
pub enum TernarySignal {
    Underutilized,
    Balanced,
    Overloaded,
}

/// The signal for the utilization `r.0 / r.1` (with `r.1 > 0`):
/// below 2/5 underutilized, above 4/5 overloaded, balanced in between
/// (both bounds included).
pub open spec fn classify(r: (int, int)) -> TernarySignal {
    if 5 * r.0 < 2 * r.1 {
        TernarySignal::Underutilized
    } else if 5 * r.0 > 4 * r.1 {
        TernarySignal::Overloaded
    } else {
        TernarySignal::Balanced
    }
}

/// The position of a signal on the load axis: underutilized lowest.
pub open spec fn load_rank(s: TernarySignal) -> int {
    match s {
        TernarySignal::Underutilized => 0,
        TernarySignal::Balanced => 1,
        TernarySignal::Overloaded => 2,
    }
}

impl TernarySignal {
    /// Classify a utilization ratio into a ternary signal.
    ///
    /// - `< 0.4` → Underutilized
    /// - `0.4–0.8` → Balanced
    /// - `> 0.8` → Overloaded
    pub fn from_utilization(ratio: Ratio) -> (s: TernarySignal)
        requires
            ratio.wf(),
        ensures
            s == classify(ratio@),
    {
        let low = relation_to_fraction(ratio.num, ratio.den, 2, 5);
        if low == -1 {
            assert(5 * ratio.num < 2 * ratio.den) by (nonlinear_arith)
                requires
                    ratio.num * 5 < 2 * ratio.den,
            ;
            TernarySignal::Underutilized
        } else {
            let high = relation_to_fraction(ratio.num, ratio.den, 4, 5);
            if high == 1 {
                TernarySignal::Overloaded
            } else {
                TernarySignal::Balanced
            }
        }
    }

    /// The signal's value on the ternary scale: `+1`, `0` or `-1`.
    pub fn value(self) -> (v: i8)
        ensures
            v == 1 - load_rank(self),
    {
        match self {
            TernarySignal::Underutilized => 1,
            TernarySignal::Balanced => 0,
            TernarySignal::Overloaded => -1,
        }
    }

    /// The signal as text: `+1 (underutilized)`, ` 0 (balanced)` or
    /// `-1 (overloaded)`.
    pub fn to_string(&self) -> (s: String)
        ensures
            s@ == signal_text(*self),
    {
        match self {
            TernarySignal::Underutilized => "+1 (underutilized)".to_owned(),
            TernarySignal::Balanced => " 0 (balanced)".to_owned(),
            TernarySignal::Overloaded => "-1 (overloaded)".to_owned(),
        }
    }
}

/// The text of each signal.
pub open spec fn signal_text(s: TernarySignal) -> Seq<char> {
    match s {
        TernarySignal::Underutilized => "+1 (underutilized)"@,
        TernarySignal::Balanced => " 0 (balanced)"@,
        TernarySignal::Overloaded => "-1 (overloaded)"@,
    }
}

/// A higher utilization never gives a lower signal.
pub proof fn lemma_classify_monotone(a: (int, int), b: (int, int))
    requires
        a.1 > 0,
        b.1 > 0,
        a.0 >= 0,
        b.0 >= 0,
        frac_le(a, b),
    ensures
        load_rank(classify(a)) <= load_rank(classify(b)),
{
    // a.0 / a.1 <= b.0 / b.1, so each threshold crossed by a is crossed by b.
    if 5 * b.0 < 2 * b.1 {
        assert(5 * a.0 < 2 * a.1) by (nonlinear_arith)
            requires
                a.0 * b.1 <= b.0 * a.1,
                5 * b.0 < 2 * b.1,
                a.1 > 0,
                b.1 > 0,
        ;
    }
    if 5 * a.0 > 4 * a.1 {
        assert(5 * b.0 > 4 * b.1) by (nonlinear_arith)
            requires
                a.0 * b.1 <= b.0 * a.1,
                5 * a.0 > 4 * a.1,
                a.1 > 0,
                b.1 > 0,
        ;
    }
}

} // verus!
