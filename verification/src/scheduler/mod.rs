//! A toy scheduler: processes in a queue, one of them the current one, and
//! two rules for the turn of the next. Times are microseconds.

pub mod clock;
pub mod niceness;
pub mod process;
pub mod round_robin;
pub mod runner;
pub mod tasks;

pub use niceness::NicenessScheduler;
pub use process::Process;
pub use round_robin::RoundRobinScheduler;
pub use runner::{ProcessRunner, RunnerEvent};
pub use tasks::{CounterTask, Task};

use vstd::prelude::*;

verus! {

/// The time between two polls of a scheduler that was given none, in
/// microseconds.
pub const DEFAULT_TICK_RATE: u64 = 200_000;

/// The index of the first process in `queue` that has the name `name`, if
/// `index` is it.
pub open spec fn first_named(queue: Seq<Process>, name: Seq<char>, index: int) -> bool {
    &&& 0 <= index < queue.len()
    &&& queue[index].spec_name() == name
    &&& forall|earlier: int| 0 <= earlier < index ==> (#[trigger] queue[earlier]).spec_name() != name
}

/// A queue of processes of which one is the current one, and a rule by which
/// the current one changes at a poll. Polls are at least a tick apart.
pub trait Scheduler {
    const NAME: &'static str;

    /// The processes, in the order in which they were added.
    spec fn queue(&self) -> Seq<Process>;

    /// The index of the current process. It may lie behind the queue after
    /// processes were removed.
    spec fn position(&self) -> int;

    /// The processor time that the processes have used together, in
    /// microseconds.
    spec fn elapsed(&self) -> u64;

    /// The time that must have passed since the last poll before the next
    /// one, in microseconds.
    spec fn tick_rate(&self) -> u64;

    /// The position that a poll with the given badness of each process
    /// leads to.
    spec fn polled(&self, badness: Seq<i64>) -> int;

    fn processes(&self) -> (all: &Vec<Process>)
        ensures
            all@ == self.queue(),
    ;

    fn add_process(&mut self, process: Process)
        ensures
            final(self).queue() == old(self).queue().push(process),
            final(self).position() == old(self).position(),
            final(self).elapsed() == old(self).elapsed(),
            final(self).tick_rate() == old(self).tick_rate(),
    ;

    /// Removes the first process of the given name from the queue.
    fn remove_process(&mut self, process_name: String) -> (removed: Option<Process>)
        ensures
            final(self).position() == old(self).position(),
            final(self).elapsed() == old(self).elapsed(),
            final(self).tick_rate() == old(self).tick_rate(),
            match removed {
                Some(process) => exists|index: int|
                    {
                        &&& #[trigger] first_named(old(self).queue(), process_name@, index)
                        &&& process == old(self).queue()[index]
                        &&& final(self).queue() == old(self).queue().remove(index)
                    },
                None => {
                    &&& final(self).queue() == old(self).queue()
                    &&& forall|index: int|
                        0 <= index < old(self).queue().len() ==> (#[trigger] old(
                            self,
                        ).queue()[index]).spec_name() != process_name@
                },
            },
    ;

    /// Polls if `waited` microseconds are more than a tick: then the current
    /// process becomes the one that the rule of the scheduler picks, given
    /// the badness of each process. Tells whether it has polled.
    fn poll_if_due(&mut self, waited: u64, badness: &Vec<i64>) -> (polled: bool)
        requires
            badness@.len() == old(self).queue().len(),
        ensures
            polled == (waited > old(self).tick_rate()),
            final(self).queue() == old(self).queue(),
            final(self).elapsed() == old(self).elapsed(),
            final(self).tick_rate() == old(self).tick_rate(),
            final(self).position() == if polled {
                old(self).polled(badness@)
            } else {
                old(self).position()
            },
    ;

    /// Polls if more than a tick has passed since the last poll, and hands
    /// out the current process. Whether a poll is due depends on the clock:
    /// whatever it says, the position is the old one or the polled one.
    fn schedule(&mut self, badness: &Vec<i64>) -> (found: Option<&mut Process>)
        requires
            badness@.len() == old(self).queue().len(),
        ensures
            final(self).elapsed() == old(self).elapsed(),
            final(self).tick_rate() == old(self).tick_rate(),
            final(self).position() == old(self).position() || final(self).position() == old(
                self,
            ).polled(badness@),
            found is Some <==> 0 <= final(self).position() < old(self).queue().len(),
            found matches Some(process) ==> *process == old(self).queue()[final(self).position()]
                && final(self).queue() == old(self).queue().update(
                final(self).position(),
                *final(process),
            ),
            found is None ==> final(self).queue() == old(self).queue(),
    ;

    fn cpu_elapsed(&self) -> (micros: u64)
        ensures
            micros == self.elapsed(),
    ;

    /// Adds `elapsed` microseconds to the processor time used. The sum stops
    /// at `u64::MAX`.
    fn add_cpu_elapsed(&mut self, elapsed: u64)
        ensures
            final(self).queue() == old(self).queue(),
            final(self).position() == old(self).position(),
            final(self).tick_rate() == old(self).tick_rate(),
            final(self).elapsed() == if old(self).elapsed() + elapsed > u64::MAX {
                u64::MAX
            } else {
                (old(self).elapsed() + elapsed) as u64
            },
    ;

    fn current_process(&self) -> (found: Option<&Process>)
        ensures
            found is Some <==> 0 <= self.position() < self.queue().len(),
            found matches Some(process) ==> *process == self.queue()[self.position()],
    ;

    fn current_process_mut(&mut self) -> (found: Option<&mut Process>)
        ensures
            final(self).position() == old(self).position(),
            final(self).elapsed() == old(self).elapsed(),
            final(self).tick_rate() == old(self).tick_rate(),
            found is Some <==> 0 <= old(self).position() < old(self).queue().len(),
            found matches Some(process) ==> *process == old(self).queue()[old(self).position()]
                && final(self).queue() == old(self).queue().update(
                old(self).position(),
                *final(process),
            ),
            found is None ==> final(self).queue() == old(self).queue(),
    ;
}

} // verus!
