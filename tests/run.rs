use phenosim::{RunAction, RunState};
use RunAction::{Finish, Save, Step};

fn actions(steps_per_save: usize, saves_per_file: usize, limit: usize) -> Vec<RunAction> {
    let mut state = RunState::start();
    let mut out = Vec::new();
    for _ in 0..limit {
        let (next, action) = state.next(steps_per_save, saves_per_file);
        state = next;
        out.push(action);
        if action == Finish {
            break;
        }
    }
    out
}

#[test]
fn run_alternates_batches_and_saves_then_finishes() {
    assert_eq!(
        actions(2, 3, 100),
        vec![Step, Step, Save, Step, Step, Save, Step, Step, Save, Finish]
    );
}

#[test]
fn run_with_single_step_batches() {
    assert_eq!(actions(1, 2, 100), vec![Step, Save, Step, Save, Finish]);
}

#[test]
fn finished_run_stays_finished() {
    let done = RunState { steps_in_batch: 0, saves_done: 4 };
    assert_eq!(done.next(3, 4), (done, RunAction::Finish));
    assert_eq!(
        RunState { steps_in_batch: 3, saves_done: 1 }.next(3, 4),
        (RunState { steps_in_batch: 0, saves_done: 2 }, RunAction::Save)
    );
}
