//! The delay between a device becoming readable and the read.

use vstd::prelude::*;

verus! {

/// The longest duration that there is, in nanoseconds.
pub const MAX_NS: u128 = 18_446_744_073_709_551_615_999_999_999;

/// A trailing-edge throttle. Its period doubles while reads are short, and shrinks
/// by a fifth, never to be exceeded again, when events are lost.
#[derive(Clone, Copy, PartialEq, Eq, Debug)]
pub struct Debounce {
    period_ns: u128,
    ceiling_ns: u128,
}

/// What a throttle stands for.
pub struct DebounceState {
    pub period_ns: int,
    /// What the period may grow to.
    pub ceiling_ns: int,
}

impl DebounceState {
    pub open spec fn wf(self) -> bool {
        0 < self.period_ns <= self.ceiling_ns <= MAX_NS
    }

    /// Whether the period can be doubled.
    pub open spec fn can_expand(self) -> bool {
        2 * self.period_ns <= MAX_NS
    }

    /// Whether there is a period that is shorter by a fifth.
    pub open spec fn can_shrink(self) -> bool {
        2 <= self.period_ns && 4 * self.period_ns <= MAX_NS
    }

    /// With twice the period, as far as the ceiling allows.
    pub open spec fn expanded(self) -> Self {
        DebounceState {
            period_ns: if 2 * self.period_ns < self.ceiling_ns {
                2 * self.period_ns
            } else {
                self.ceiling_ns
            },
            ..self
        }
    }

    /// With a period that is shorter by a fifth, for good.
    pub open spec fn shrunk(self) -> Self {
        DebounceState {
            period_ns: 4 * self.period_ns / 5,
            ceiling_ns: 4 * self.period_ns / 5,
        }
    }
}

impl View for Debounce {
    type V = DebounceState;

    closed spec fn view(&self) -> DebounceState {
        DebounceState { period_ns: self.period_ns as int, ceiling_ns: self.ceiling_ns as int }
    }
}

impl Debounce {
    pub open spec fn wf(self) -> bool {
        self@.wf()
    }

    pub fn new(period_ns: u128) -> (d: Self)
        requires
            0 < period_ns <= MAX_NS,
        ensures
            d.wf(),
            d@ == (DebounceState { period_ns: period_ns as int, ceiling_ns: MAX_NS as int }),
    {
        Debounce { period_ns, ceiling_ns: MAX_NS }
    }

    pub fn period_ns(&self) -> (ns: u128)
        ensures
            ns == self@.period_ns,
    {
        self.period_ns
    }

    /// Whether `expand` can double the period.
    pub fn can_expand(&self) -> (yes: bool)
        requires
            self.wf(),
        ensures
            yes == self@.can_expand(),
    {
        self.period_ns <= MAX_NS / 2
    }

    /// Whether `shrink` can shorten the period.
    pub fn can_shrink(&self) -> (yes: bool)
        requires
            self.wf(),
        ensures
            yes == self@.can_shrink(),
    {
        2 <= self.period_ns && self.period_ns <= MAX_NS / 4
    }

    /// Doubles the period, as far as the ceiling allows. Gives the new period if it
    /// is another one.
    pub fn expand(&mut self) -> (changed: Option<u128>)
        requires
            old(self).wf(),
            old(self)@.can_expand(),
        ensures
            final(self).wf(),
            final(self)@ == old(self)@.expanded(),
            changed == if final(self)@.period_ns == old(self)@.period_ns {
                None
            } else {
                Some(final(self)@.period_ns as u128)
            },
    {
        let doubled: u128 = self.period_ns * 2;
        let target: u128 = if doubled < self.ceiling_ns {
            doubled
        } else {
            self.ceiling_ns
        };
        self.reset(target)
    }

    /// Shortens the period by a fifth, and keeps it from growing beyond that again.
    /// Gives the new period.
    pub fn shrink(&mut self) -> (changed: Option<u128>)
        requires
            old(self).wf(),
            old(self)@.can_shrink(),
        ensures
            final(self).wf(),
            final(self)@ == old(self)@.shrunk(),
            changed == Some(final(self)@.period_ns as u128),
    {
        let target: u128 = self.period_ns * 4 / 5;
        if target < self.ceiling_ns {
            self.ceiling_ns = target;
        }
        self.reset(target)
    }

    /// Sets the period. Gives it if it is another one.
    fn reset(&mut self, period_ns: u128) -> (changed: Option<u128>)
        ensures
            final(self).period_ns == period_ns,
            final(self).ceiling_ns == old(self).ceiling_ns,
            changed == if period_ns == old(self).period_ns {
                None
            } else {
                Some(period_ns)
            },
    {
        if self.period_ns == period_ns {
            return None;
        }
        self.period_ns = period_ns;
        Some(period_ns)
    }
}

/// Once events have been lost the period does not grow again.
pub proof fn law_shrunk_period_is_final(d: DebounceState)
    requires
        d.wf(),
        d.can_shrink(),
    ensures
        d.shrunk().wf(),
        d.shrunk().period_ns < d.period_ns,
        d.shrunk().expanded() == d.shrunk(),
{
}

/// What the period may grow to never rises.
pub proof fn law_ceiling_never_rises(d: DebounceState)
    requires
        d.wf(),
    ensures
        d.expanded().ceiling_ns == d.ceiling_ns,
        d.can_shrink() ==> d.shrunk().ceiling_ns <= d.ceiling_ns,
        d.expanded().period_ns >= d.period_ns,
{
}

/// A longer period is twice the period, or the ceiling where that is less.
pub proof fn law_expanding_doubles_up_to_the_ceiling(d: DebounceState)
    ensures
        d.expanded().ceiling_ns == d.ceiling_ns,
        2 * d.period_ns <= d.ceiling_ns ==> d.expanded().period_ns == 2 * d.period_ns,
        2 * d.period_ns >= d.ceiling_ns ==> d.expanded().period_ns == d.ceiling_ns,
{
}

/// A shorter period is four fifths of the period, rounded down, and becomes the ceiling.
pub proof fn law_shrinking_takes_a_fifth(d: DebounceState)
    ensures
        5 * d.shrunk().period_ns <= 4 * d.period_ns < 5 * d.shrunk().period_ns + 5,
        d.shrunk().ceiling_ns == d.shrunk().period_ns,
{
}

/// A period can be doubled if that is a duration, and shortened if that leaves something
/// and four times it is a duration.
pub proof fn law_which_periods_can_change(d: DebounceState)
    ensures
        d.can_expand() <==> 2 * d.period_ns <= 18_446_744_073_709_551_615_999_999_999,
        d.can_shrink() <==> d.period_ns >= 2 && 4 * d.period_ns
            <= 18_446_744_073_709_551_615_999_999_999,
{
}

} // verus!
