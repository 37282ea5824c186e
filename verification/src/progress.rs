//! The progress value attached to a task: a step counter, an optional
//! target, and an optional unit label.

use vstd::prelude::*;

verus! {

/// The integer type of a progress step counter.
pub type ProgressStep = u32;

/// A task's progress: how many steps were done, out of how many (if known),
/// in which unit (if any).
pub struct Progress {
    /// The current step count.
    pub step: ProgressStep,
    /// The step count at which the task is complete, if known.
    pub done_at: Option<ProgressStep>,
    /// A short label for the unit of the step counter, such as `files`.
    pub unit: Option<String>,
}

/// The mathematical value of a [`Progress`].
pub ghost struct ProgressV {
    /// The current step count.
    pub step: ProgressStep,
    /// The step count at which the task is complete, if known.
    pub done_at: Option<ProgressStep>,
    /// The characters of the unit label, if any.
    pub unit: Option<Seq<char>>,
}

impl View for Progress {
    type V = ProgressV;

    open spec fn view(&self) -> ProgressV {
        ProgressV {
            step: self.step,
            done_at: self.done_at,
            unit: match self.unit {
                Some(u) => Some(u@),
                None => None,
            },
        }
    }
}

/// A ratio of work done, always within `[0, 1]`: `num <= den` and `den > 0`.
#[derive(Clone, Copy, PartialEq, Eq, Structural, Debug)]
pub struct Fraction {
    /// The numerator: the step count, capped at the target.
    pub num: u32,
    /// The denominator: the target, never zero.
    pub den: u32,
}

impl Fraction {
    /// A fraction is within `[0, 1]`: its numerator never exceeds its
    /// denominator, and the denominator is positive.
    pub open spec fn wf(self) -> bool {
        self.num <= self.den && self.den > 0
    }
}

/// What [`Progress::fraction`] returns: the clamped ratio of `step` over
/// `done_at`, defined exactly when a positive target is known.
pub open spec fn fraction_of(p: ProgressV) -> Option<Fraction> {
    match p.done_at {
        Some(done_at) => if done_at > 0 {
            Some(
                Fraction {
                    num: if p.step <= done_at {
                        p.step
                    } else {
                        done_at
                    },
                    den: done_at,
                },
            )
        } else {
            None
        },
        None => None,
    }
}

impl Progress {
    /// The ratio of work done, clamped to `[0, 1]`; absent when no positive
    /// target is known, in which case the task renders as a spinner rather
    /// than a bar.
    pub fn fraction(&self) -> (r: Option<Fraction>)
        ensures
            r == fraction_of(self@),
            r is Some ==> r->0.wf(),
            self.done_at is None ==> r is None,
    {
        match self.done_at {
            Some(done_at) => if done_at > 0 {
                Some(
                    Fraction {
                        num: if self.step <= done_at {
                            self.step
                        } else {
                            done_at
                        },
                        den: done_at,
                    },
                )
            } else {
                None
            },
            None => None,
        }
    }
}

/// Whenever a positive target `t` is known, the fraction is defined and lies
/// within `[0, 1]`, even when the step counter has run past the target.
pub proof fn lemma_fraction_in_unit_interval(p: ProgressV, t: ProgressStep)
    requires
        p.done_at == Some(t),
        t > 0,
    ensures
        fraction_of(p) is Some,
        fraction_of(p)->0.wf(),
{
}

/// Without a known target the fraction is never a number: it is absent.
pub proof fn lemma_fraction_absent_without_target(p: ProgressV)
    requires
        p.done_at is None,
    ensures
        fraction_of(p) is None,
{
}

} // verus!
