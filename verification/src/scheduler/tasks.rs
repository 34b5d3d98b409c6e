//! Tasks: what a process does when it runs.

use vstd::prelude::*;

verus! {

/// Work that a process does when it is run: each run produces an output.
pub trait Task {
    fn run(&mut self) -> String;
}

/// The decimal digit for a number below ten.
pub open spec fn digit(value: nat) -> char {
    if value == 0 {
        '0'
    } else if value == 1 {
        '1'
    } else if value == 2 {
        '2'
    } else if value == 3 {
        '3'
    } else if value == 4 {
        '4'
    } else if value == 5 {
        '5'
    } else if value == 6 {
        '6'
    } else if value == 7 {
        '7'
    } else if value == 8 {
        '8'
    } else {
        '9'
    }
}

/// The decimal digits of a number, the highest first and without leading
/// zeros.
pub open spec fn decimal(value: nat) -> Seq<char>
    decreases value,
{
    if value < 10 {
        seq![digit(value)]
    } else {
        decimal(value / 10).push(digit(value % 10))
    }
}

/// The decimal digits of `value` as a string, as `ToString::to_string` for
/// `u32` writes them: the highest digit first, no sign and no leading zeros.
#[verifier::external_body]
fn decimal_string(value: u32) -> (text: String)
    ensures
        text@ == decimal(value as nat),
{
    value.to_string()
}

/// A task that counts its runs.
pub struct CounterTask {
    counter: u32,
}

impl CounterTask {
    /// The number of runs so far, counted modulo 2^32.
    pub closed spec fn count(&self) -> u32 {
        self.counter
    }

    pub fn new() -> (task: Self)
        ensures
            task.count() == 0,
    {
        Self { counter: 0 }
    }
}

impl Task for CounterTask {
    /// Counts one run more and gives the count in decimal digits. After
    /// 2^32 - 1 the count starts again at 0.
    fn run(&mut self) -> (output: String)
        ensures
            final(self).count() == if old(self).count() == u32::MAX {
                0
            } else {
                old(self).count() + 1
            },
            output@ == decimal(final(self).count() as nat),
    {
        self.counter = self.counter.wrapping_add(1);
        decimal_string(self.counter)
    }
}

} // verus!
