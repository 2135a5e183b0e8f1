//! The primitive behaviors as standalone evaluators: the six two-input gates,
//! each a pure function of its two single-bit inputs, and the gated clock,
//! a counter that divides its evaluation steps into an off phase and an on
//! phase.

use vstd::prelude::*;

verus! {

/// The logical-and gate.
pub struct AND;

/// The logical-or gate.
pub struct OR;

/// The exclusive-or gate.
pub struct XOR;

/// The negated-and gate.
pub struct NAND;

/// The negated-or gate.
pub struct NOR;

/// The negated-exclusive-or gate.
pub struct XNOR;

impl AND {
    pub fn update(&self, input: &[bool]) -> (out: Vec<bool>)
        requires
            input@.len() >= 2,
        ensures
            out@ =~= seq![input@[0] && input@[1]],
    {
        let mut out: Vec<bool> = Vec::new();
        out.push(input[0] && input[1]);
        out
    }
}

impl OR {
    pub fn update(&self, input: &[bool]) -> (out: Vec<bool>)
        requires
            input@.len() >= 2,
        ensures
            out@ =~= seq![input@[0] || input@[1]],
    {
        let mut out: Vec<bool> = Vec::new();
        out.push(input[0] || input[1]);
        out
    }
}

impl XOR {
    pub fn update(&self, input: &[bool]) -> (out: Vec<bool>)
        requires
            input@.len() >= 2,
        ensures
            out@ =~= seq![input@[0] != input@[1]],
    {
        let mut out: Vec<bool> = Vec::new();
        out.push(input[0] != input[1]);
        out
    }
}

impl NAND {
    pub fn update(&self, input: &[bool]) -> (out: Vec<bool>)
        requires
            input@.len() >= 2,
        ensures
            out@ =~= seq![!(input@[0] && input@[1])],
    {
        let mut out: Vec<bool> = Vec::new();
        out.push(!(input[0] && input[1]));
        out
    }
}

impl NOR {
    pub fn update(&self, input: &[bool]) -> (out: Vec<bool>)
        requires
            input@.len() >= 2,
        ensures
            out@ =~= seq![!(input@[0] || input@[1])],
    {
        let mut out: Vec<bool> = Vec::new();
        out.push(!(input[0] || input[1]));
        out
    }
}

impl XNOR {
    pub fn update(&self, input: &[bool]) -> (out: Vec<bool>)
        requires
            input@.len() >= 2,
        ensures
            out@ =~= seq![input@[0] == input@[1]],
    {
        let mut out: Vec<bool> = Vec::new();
        out.push(input[0] == input[1]);
        out
    }
}

/// A gated oscillator: while its gate input is asserted, each evaluation
/// advances an internal counter; the output is low for the first
/// `off_period` counts of a cycle and high for the rest, and the counter
/// wraps to zero when it reaches `cycle_length`.
pub struct Clock {
    pub off_period: u32,
    pub cycle_length: u32,
    pub state: u32,
}

impl Clock {
    /// The counter after one gated evaluation step: one more than before,
    /// saturating at the largest representable count (reachable only when
    /// `off_period` never lets the cycle end).
    pub open spec fn spec_bumped(self) -> u32 {
        if self.state == u32::MAX {
            u32::MAX
        } else {
            (self.state + 1) as u32
        }
    }

    /// The counter after a gated evaluation: the bumped count, or zero once
    /// the cycle is complete.
    pub open spec fn spec_next_state(self) -> u32 {
        if self.spec_bumped() <= self.off_period || self.spec_bumped() < self.cycle_length {
            self.spec_bumped()
        } else {
            0
        }
    }

    /// The output after a gated evaluation: low while the bumped count is
    /// within the off period, high for the rest of the cycle.
    pub open spec fn spec_output(self) -> bool {
        self.spec_bumped() > self.off_period
    }

    /// The whole clock after a gated evaluation step.
    pub open spec fn spec_stepped(self) -> Clock {
        Clock {
            off_period: self.off_period,
            cycle_length: self.cycle_length,
            state: self.spec_next_state(),
        }
    }

    pub fn new(off_period: u32, cycle_length: u32) -> (c: Clock)
        ensures
            c.off_period == off_period,
            c.cycle_length == cycle_length,
            c.state == 0,
    {
        Clock { off_period, cycle_length, state: 0 }
    }

    /// One evaluation step. While its gating input is not asserted neither
    /// the counter nor the output moves: `None` says the previous output stands.
    pub fn step(&mut self, gate: bool) -> (out: Option<bool>)
        ensures
            !gate ==> *final(self) == *old(self) && out is None,
            gate ==> *final(self) == old(self).spec_stepped() && out == Some(
                old(self).spec_output(),
            ),
    {
        if !gate {
            return None;
        }
        let bumped: u32 = if self.state == u32::MAX {
            u32::MAX
        } else {
            self.state + 1
        };
        if bumped <= self.off_period {
            self.state = bumped;
            Some(false)
        } else if bumped < self.cycle_length {
            self.state = bumped;
            Some(true)
        } else {
            self.state = 0;
            Some(true)
        }
    }
}

} // verus!
