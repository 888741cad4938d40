use vstd::prelude::*;

verus! {

/// What the driver of a run does next.
#[derive(Debug, Clone, Copy, PartialEq, Eq)]
pub enum RunAction {
    /// Advance the simulation by one step; a failed step ends the run.
    Step,
    /// Append the current snapshot to the trajectory.
    Save,
    /// The run is complete.
    Finish,
}

/// Where a run stands: steps taken in the current batch and frames saved.
#[derive(Debug, Clone, Copy, PartialEq, Eq)]
pub struct RunState {
    pub steps_in_batch: usize,
    pub saves_done: usize,
}

impl RunState {
    /// The state before the first step.
    pub fn start() -> (r: RunState)
        ensures
            r == (RunState { steps_in_batch: 0, saves_done: 0 }),
    {
        RunState { steps_in_batch: 0, saves_done: 0 }
    }

    /// The next state and action of a run of `saves_per_file` batches of
    /// `steps_per_save` steps, each batch followed by a save.
    pub open spec fn next_spec(self, steps_per_save: nat, saves_per_file: nat) -> (RunState, RunAction) {
        if self.saves_done >= saves_per_file {
            (self, RunAction::Finish)
        } else if self.steps_in_batch < steps_per_save {
            (
                RunState {
                    steps_in_batch: (self.steps_in_batch + 1) as usize,
                    saves_done: self.saves_done,
                },
                RunAction::Step,
            )
        } else {
            (
                RunState { steps_in_batch: 0, saves_done: (self.saves_done + 1) as usize },
                RunAction::Save,
            )
        }
    }

    /// Decides what the run does next: a step while the batch is not full,
    /// a save when it is, and the end once every batch is saved.
    pub fn next(self, steps_per_save: usize, saves_per_file: usize) -> (r: (RunState, RunAction))
        requires
            self.steps_in_batch <= steps_per_save,
        ensures
            r == self.next_spec(steps_per_save as nat, saves_per_file as nat),
            r.0.steps_in_batch <= steps_per_save,
    {
        if self.saves_done >= saves_per_file {
            (self, RunAction::Finish)
        } else if self.steps_in_batch < steps_per_save {
            (
                RunState { steps_in_batch: self.steps_in_batch + 1, saves_done: self.saves_done },
                RunAction::Step,
            )
        } else {
            (RunState { steps_in_batch: 0, saves_done: self.saves_done + 1 }, RunAction::Save)
        }
    }
}

/// The actions of `n` successive decisions from `s`.
pub open spec fn run_from(s: RunState, steps_per_save: nat, saves_per_file: nat, n: nat) -> Seq<
    RunAction,
>
    decreases n,
{
    if n == 0 {
        Seq::empty()
    } else {
        let (t, a) = s.next_spec(steps_per_save, saves_per_file);
        seq![a] + run_from(t, steps_per_save, saves_per_file, (n - 1) as nat)
    }
}

/// `k` batches of `steps_per_save` steps each followed by a save, then the
/// end.
pub open spec fn schedule(steps_per_save: nat, k: nat) -> Seq<RunAction>
    decreases k,
{
    if k == 0 {
        seq![RunAction::Finish]
    } else {
        Seq::new(steps_per_save, |i: int| RunAction::Step).push(RunAction::Save) + schedule(
            steps_per_save,
            (k - 1) as nat,
        )
    }
}

proof fn lemma_batch(b: nat, d: nat, steps_per_save: nat, saves_per_file: nat, n: nat)
    requires
        b <= steps_per_save,
        d < saves_per_file,
        d < usize::MAX,
        steps_per_save <= usize::MAX,
    ensures
        run_from(
            RunState { steps_in_batch: b as usize, saves_done: d as usize },
            steps_per_save,
            saves_per_file,
            (steps_per_save - b + 1 + n) as nat,
        ) == Seq::new((steps_per_save - b) as nat, |i: int| RunAction::Step).push(RunAction::Save)
            + run_from(
            RunState { steps_in_batch: 0, saves_done: (d + 1) as usize },
            steps_per_save,
            saves_per_file,
            n,
        ),
    decreases steps_per_save - b,
{
    let s = RunState { steps_in_batch: b as usize, saves_done: d as usize };
    let rest = run_from(
        RunState { steps_in_batch: 0, saves_done: (d + 1) as usize },
        steps_per_save,
        saves_per_file,
        n,
    );
    if b == steps_per_save {
        assert(Seq::new(0, |i: int| RunAction::Step).push(RunAction::Save) + rest =~= seq![
            RunAction::Save,
        ] + rest);
    } else {
        lemma_batch(b + 1, d, steps_per_save, saves_per_file, n);
        let m = (steps_per_save - b) as nat;
        assert(Seq::new(m, |i: int| RunAction::Step).push(RunAction::Save) + rest =~= seq![
            RunAction::Step,
        ] + (Seq::new((m - 1) as nat, |i: int| RunAction::Step).push(RunAction::Save) + rest));
    }
}

proof fn lemma_schedule_from(d: nat, steps_per_save: nat, saves_per_file: nat)
    requires
        d <= saves_per_file,
        saves_per_file <= usize::MAX,
        steps_per_save <= usize::MAX,
    ensures
        run_from(
            RunState { steps_in_batch: 0, saves_done: d as usize },
            steps_per_save,
            saves_per_file,
            ((saves_per_file - d) * (steps_per_save + 1) + 1) as nat,
        ) == schedule(steps_per_save, (saves_per_file - d) as nat),
    decreases saves_per_file - d,
{
    if d == saves_per_file {
        assert(run_from(
            RunState { steps_in_batch: 0, saves_done: d as usize },
            steps_per_save,
            saves_per_file,
            0,
        ) =~= Seq::<RunAction>::empty());
        assert(seq![RunAction::Finish] + Seq::<RunAction>::empty() =~= seq![RunAction::Finish]);
        assert((saves_per_file - d) * (steps_per_save + 1) == 0) by (nonlinear_arith)
            requires
                saves_per_file - d == 0,
        ;
    } else {
        let k = (saves_per_file - d) as nat;
        let n = ((k - 1) * (steps_per_save + 1) + 1) as nat;
        assert(k * (steps_per_save + 1) + 1 == steps_per_save + 1 + n) by (nonlinear_arith)
            requires
                k >= 1,
                n == (k - 1) * (steps_per_save + 1) + 1,
        ;
        lemma_batch(0, d, steps_per_save, saves_per_file, n);
        lemma_schedule_from(d + 1, steps_per_save, saves_per_file);
        assert(Seq::new(steps_per_save, |i: int| RunAction::Step) =~= Seq::new(
            (steps_per_save - 0) as nat,
            |i: int| RunAction::Step,
        ));
        assert((saves_per_file - (d + 1)) as nat == (k - 1) as nat);
        assert(schedule(steps_per_save, k) == Seq::new(steps_per_save, |i: int| RunAction::Step).push(
            RunAction::Save,
        ) + schedule(steps_per_save, (k - 1) as nat));
    }
}

/// A run that starts from `RunState::start()` makes exactly
/// `saves_per_file` batches of `steps_per_save` steps, each followed by one
/// save, and then finishes.
pub proof fn lemma_run_schedule(steps_per_save: usize, saves_per_file: usize)
    ensures
        run_from(
            RunState { steps_in_batch: 0, saves_done: 0 },
            steps_per_save as nat,
            saves_per_file as nat,
            (saves_per_file * (steps_per_save + 1) + 1) as nat,
        ) == schedule(steps_per_save as nat, saves_per_file as nat),
{
    lemma_schedule_from(0, steps_per_save as nat, saves_per_file as nat);
}

} // verus!
