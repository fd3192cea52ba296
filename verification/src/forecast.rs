//! Trend prediction by linear extrapolation from the last two samples.

use vstd::prelude::*;
use crate::planner::CapacityPlanner;

verus! {

/// The prediction `horizon` steps past the end of `history`: `0` without
/// samples, the only sample when there is one, and otherwise the last sample
/// plus `horizon` times the last step, never below zero.
pub open spec fn extrapolate(history: Seq<u64>, horizon: int) -> int {
    if history.len() == 0 {
        0
    } else if history.len() == 1 {
        history[0] as int
    } else {
        let last = history[history.len() - 1] as int;
        let prev = history[history.len() - 2] as int;
        let v = last + (last - prev) * horizon;
        if v < 0 {
            0
        } else {
            v
        }
    }
}

/// With two or more samples, a horizon of zero predicts the last sample,
/// and while the trend does not fall, each further step adds the last step.
pub proof fn lemma_extrapolate_linear(history: Seq<u64>, horizon: int)
    requires
        history.len() >= 2,
        horizon >= 0,
    ensures
        extrapolate(history, 0) == history.last(),
        history.last() >= history[history.len() - 2] ==> extrapolate(history, horizon + 1)
            == extrapolate(history, horizon) + (history.last() - history[history.len() - 2]),
{
    let last = history[history.len() - 1] as int;
    let prev = history[history.len() - 2] as int;
    if last >= prev {
        assert((last - prev) * (horizon + 1) == (last - prev) * horizon + (last - prev)) by (nonlinear_arith);
        assert((last - prev) * horizon >= 0) by (nonlinear_arith)
            requires
                last >= prev,
                horizon >= 0,
        ;
    }
}

/// A rising trend never predicts less for a longer horizon, a falling one
/// never more.
pub proof fn lemma_extrapolate_monotone(history: Seq<u64>, h1: int, h2: int)
    requires
        history.len() >= 2,
        0 <= h1 <= h2,
    ensures
        history.last() >= history[history.len() - 2] ==> extrapolate(history, h1) <= extrapolate(history, h2),
        history.last() <= history[history.len() - 2] ==> extrapolate(history, h1) >= extrapolate(history, h2),
{
    let last = history[history.len() - 1] as int;
    let prev = history[history.len() - 2] as int;
    if last >= prev {
        assert((last - prev) * h1 <= (last - prev) * h2) by (nonlinear_arith)
            requires
                last >= prev,
                h1 <= h2,
        ;
    }
    if last <= prev {
        assert((last - prev) * h1 >= (last - prev) * h2) by (nonlinear_arith)
            requires
                last <= prev,
                h1 <= h2,
        ;
    }
}

/// The prediction depends on the last two samples only: two histories of
/// two or more samples that end in the same two samples predict the same.
pub proof fn lemma_extrapolate_uses_last_two(h1: Seq<u64>, h2: Seq<u64>, horizon: int)
    requires
        h1.len() >= 2,
        h2.len() >= 2,
        h1[h1.len() - 1] == h2[h2.len() - 1],
        h1[h1.len() - 2] == h2[h2.len() - 2],
    ensures
        extrapolate(h1, horizon) == extrapolate(h2, horizon),
{
}

/// On a falling trend the prediction is the last sample lowered by the last
/// fall once per step, never below zero; so each further step lowers it by
/// exactly that fall until it reaches zero.
pub proof fn lemma_extrapolate_falling(history: Seq<u64>, horizon: int)
    requires
        history.len() >= 2,
        horizon >= 0,
        history[history.len() - 1] < history[history.len() - 2],
    ensures
        ({
            let last = history[history.len() - 1] as int;
            let fall = history[history.len() - 2] - last;
            &&& extrapolate(history, horizon) == if last - fall * horizon < 0 {
                0
            } else {
                last - fall * horizon
            }
            &&& extrapolate(history, horizon + 1) == if extrapolate(history, horizon) - fall < 0 {
                0
            } else {
                extrapolate(history, horizon) - fall
            }
        }),
{
    let last = history[history.len() - 1] as int;
    let prev = history[history.len() - 2] as int;
    let fall = prev - last;
    assert((last - prev) * horizon == -(fall * horizon)) by (nonlinear_arith)
        requires
            fall == prev - last,
    ;
    assert((last - prev) * (horizon + 1) == -(fall * horizon) - fall) by (nonlinear_arith)
        requires
            fall == prev - last,
    ;
    assert(fall * horizon >= 0) by (nonlinear_arith)
        requires
            fall > 0,
            horizon >= 0,
    ;
}

impl CapacityPlanner {
    /// Predict future utilization using simple linear extrapolation.
    ///
    /// Given a series of past utilization measurements and a horizon (number of
    /// steps to extrapolate), returns the predicted utilization, in the unit
    /// of the measurements (for instance basis points).
    pub fn predict_utilization(history: &[u64], horizon: usize) -> (p: u128)
        ensures
            p == extrapolate(history@, horizon as int),
    {
        if history.len() == 0 {
            return 0;
        }
        if history.len() == 1 {
            return history[0] as u128;
        }
        // Simple linear regression: slope from last two points, extrapolate.
        let n = history.len();
        let last = history[n - 1] as u128;
        let prev = history[n - 2] as u128;
        let h = horizon as u128;
        if last >= prev {
            let slope = last - prev;
            assert(last + slope * h <= 0xffff_ffff_ffff_ffff * 0x1_0000_0000_0000_0000) by (nonlinear_arith)
                requires
                    slope <= last,
                    last <= 0xffff_ffff_ffff_ffff,
                    h <= 0xffff_ffff_ffff_ffff,
            ;
            last + slope * h
        } else {
            let fall = prev - last;
            assert(fall * h <= 0xffff_ffff_ffff_ffff * 0xffff_ffff_ffff_ffff) by (nonlinear_arith)
                requires
                    fall <= 0xffff_ffff_ffff_ffff,
                    h <= 0xffff_ffff_ffff_ffff,
            ;
            let drop = fall * h;
            assert((last - prev) * h == -(fall * h)) by (nonlinear_arith)
                requires
                    fall == prev - last,
            ;
            if drop >= last {
                0
            } else {
                last - drop
            }
        }
    }
}

} // verus!
