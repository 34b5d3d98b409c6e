//! A process and its account of processor time.

use super::clock::{elapsed_micros, instant_now};
use super::tasks::Task;
use vstd::prelude::*;

verus! {

/// The niceness of a process that was given none.
pub const DEFAULT_NICENESS: i8 = 0;

/// A process: a task with an identity, a niceness and an account of the
/// processor time it has used, in microseconds.
pub struct Process {
    pid: u32,
    name: String,
    task: Box<dyn Task>,
    niceness: i8,
    cpu_usage: u64,
}

impl Process {
    pub closed spec fn spec_pid(&self) -> u32 {
        self.pid
    }

    pub closed spec fn spec_name(&self) -> Seq<char> {
        self.name@
    }

    pub closed spec fn spec_niceness(&self) -> i8 {
        self.niceness
    }

    /// The processor time that the process has used, in microseconds.
    pub closed spec fn spec_cpu_usage(&self) -> u64 {
        self.cpu_usage
    }

    /// Whether `other` is this process with another account of processor
    /// time and its task in whatever state.
    pub open spec fn same_identity(&self, other: &Process) -> bool {
        &&& other.spec_pid() == self.spec_pid()
        &&& other.spec_name() == self.spec_name()
        &&& other.spec_niceness() == self.spec_niceness()
    }

    pub fn new(pid: u32, task: Box<dyn Task>) -> (process: Self)
        ensures
            process.spec_pid() == pid,
            process.spec_name() == Seq::<char>::empty(),
            process.spec_niceness() == DEFAULT_NICENESS,
            process.spec_cpu_usage() == 0,
    {
        proof {
            reveal_strlit("");
        }
        Process::named(pid, "", task)
    }

    pub fn named(pid: u32, name: &str, task: Box<dyn Task>) -> (process: Self)
        ensures
            process.spec_pid() == pid,
            process.spec_name() == name@,
            process.spec_niceness() == DEFAULT_NICENESS,
            process.spec_cpu_usage() == 0,
    {
        Process::with_niceness(pid, name, task, DEFAULT_NICENESS)
    }

    pub fn with_niceness(pid: u32, name: &str, task: Box<dyn Task>, niceness: i8) -> (process:
        Self)
        ensures
            process.spec_pid() == pid,
            process.spec_name() == name@,
            process.spec_niceness() == niceness,
            process.spec_cpu_usage() == 0,
    {
        Self { pid, name: name.to_owned(), task, niceness, cpu_usage: 0 }
    }

    pub fn name(&self) -> (name: String)
        ensures
            name@ == self.spec_name(),
    {
        self.name.clone()
    }

    pub fn pid(&self) -> (pid: u32)
        ensures
            pid == self.spec_pid(),
    {
        self.pid
    }

    pub fn niceness(&self) -> (niceness: i8)
        ensures
            niceness == self.spec_niceness(),
    {
        self.niceness
    }

    /// The processor time that the process has used, in microseconds.
    pub fn cpu_usage(&self) -> (micros: u64)
        ensures
            micros == self.spec_cpu_usage(),
    {
        self.cpu_usage
    }

    /// Adds `spent` microseconds to the account of processor time. The
    /// account stops at `u64::MAX`.
    pub fn charge(&mut self, spent: u64)
        ensures
            old(self).same_identity(final(self)),
            final(self).spec_cpu_usage() == if old(self).spec_cpu_usage() + spent > u64::MAX {
                u64::MAX
            } else {
                (old(self).spec_cpu_usage() + spent) as u64
            },
    {
        self.cpu_usage = self.cpu_usage.saturating_add(spent);
    }

    /// Runs the task once, charges the process with the time that the run
    /// has taken, and returns the output of the task.
    pub fn run(&mut self) -> (output: String)
        ensures
            old(self).same_identity(final(self)),
            final(self).spec_cpu_usage() >= old(self).spec_cpu_usage(),
    {
        let before_running = instant_now();
        let output = self.task.run();
        let spent: u64 = elapsed_micros(&before_running);
        self.charge(spent);
        output
    }
}

} // verus!
