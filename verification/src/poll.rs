use vstd::prelude::*;

verus! {

/// Whether the loop will run another cycle.
#[derive(Debug, Clone, Copy, PartialEq, Eq)]
pub enum PollState {
    Running,
    Stopped,
}

/// What the caller is to do once a cycle's snapshot is written.
#[derive(Debug, Clone, Copy, PartialEq, Eq)]
pub enum PollAction {
    /// Terminate cleanly: the single configured cycle is done.
    Stop,
    /// Wait this many seconds, then run the next cycle.
    Sleep { seconds: u64 },
}

/// The scheduling rule: a zero delay means run exactly once, any other
/// delay means keep running.
pub open spec fn next_state(delay: u64) -> PollState {
    if delay == 0 {
        PollState::Stopped
    } else {
        PollState::Running
    }
}

/// The loop's control state: the configured delay, whether it still
/// runs, and (ghost) how many cycles have completed.
pub struct PollLoop {
    pub delay: u64,
    pub state: PollState,
    pub cycles: Ghost<nat>,
}

impl PollLoop {
    /// Enters the loop: running, no cycle completed yet.
    pub fn start(delay: u64) -> (p: Self)
        ensures
            p.delay == delay,
            p.state is Running,
            p.cycles@ == 0,
    {
        PollLoop { delay, state: PollState::Running, cycles: Ghost(0nat) }
    }

    /// Decides what follows one completed cycle. With delay zero the loop
    /// stops after this, its only, cycle; otherwise the caller sleeps the
    /// configured seconds and runs the next cycle. Only a running loop
    /// can complete a cycle, so a stopped loop never runs another.
    pub fn after_cycle(&mut self) -> (a: PollAction)
        requires
            old(self).state is Running,
        ensures
            final(self).delay == old(self).delay,
            final(self).cycles@ == old(self).cycles@ + 1,
            final(self).state == next_state(old(self).delay),
            old(self).delay == 0 ==> a is Stop,
            old(self).delay != 0 ==> a == (PollAction::Sleep { seconds: old(self).delay }),
    {
        self.cycles = Ghost(self.cycles@ + 1);
        if self.delay == 0 {
            self.state = PollState::Stopped;
            PollAction::Stop
        } else {
            PollAction::Sleep { seconds: self.delay }
        }
    }
}

/// With delay zero, a started loop stops right after its first completed
/// cycle; with any other delay it keeps running.
pub proof fn lemma_zero_delay_single_cycle(delay: u64)
    ensures
        delay == 0 ==> next_state(delay) is Stopped,
        delay != 0 ==> next_state(delay) is Running,
{
}

} // verus!
