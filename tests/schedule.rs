use cpx::cli::CopyOptions;
use cpx::error::CopyError;
use cpx::link::Strategy;
use std::io::ErrorKind;
use cpx::plan::FileTask;
use cpx::schedule::{
    after_create_dir, answer_is_yes, directory_order, first_step, require_directory,
    settle_without_transfer, step_after_prompt, DirAction, TaskAction, TaskEvent, TaskOutcome,
    TaskRun, TaskStage, TaskStep, WorkerPool,
};

fn opts(resume: bool, force: bool, interactive: bool) -> CopyOptions {
    CopyOptions { recursive: true, concurrency: 4, resume, force, interactive, parents: false }
}

#[test]
fn directories_come_parents_first_once_each() {
    let dirs: Vec<String> =
        vec!["d/a/b", "d", "d/a", "d/c", "d/a", "d/a/b/e"].into_iter().map(String::from).collect();
    let order = directory_order(&dirs);
    assert_eq!(order, vec!["d", "d/a", "d/c", "d/a/b", "d/a/b/e"]);
}

#[test]
fn empty_directory_list_stays_empty() {
    assert!(directory_order(&vec![]).is_empty());
}

#[test]
fn missing_destination_is_transferred() {
    assert_eq!(first_step(None, 10, &opts(false, false, false)), TaskStep::Transfer);
}

#[test]
fn resume_skips_complete_destination() {
    let step = first_step(Some(10), 10, &opts(true, false, false));
    assert_eq!(step, TaskStep::Skip);
    assert!(matches!(settle_without_transfer(step, "d"), TaskOutcome::Skipped));
}

#[test]
fn resume_with_partial_destination_falls_through() {
    assert_eq!(first_step(Some(4), 10, &opts(true, false, false)), TaskStep::Refuse);
    assert_eq!(first_step(Some(4), 10, &opts(true, true, false)), TaskStep::RemoveThenTransfer);
}

#[test]
fn interactive_asks_before_force() {
    assert_eq!(first_step(Some(1), 10, &opts(false, true, true)), TaskStep::Prompt);
    assert_eq!(step_after_prompt(true), TaskStep::Transfer);
    assert_eq!(step_after_prompt(false), TaskStep::Skip);
}

#[test]
fn existing_destination_without_policy_fails() {
    let step = first_step(Some(10), 10, &opts(false, false, false));
    assert_eq!(step, TaskStep::Refuse);
    let outcome = settle_without_transfer(step, "out/f");
    assert!(matches!(outcome, TaskOutcome::Failed(CopyError::FileExists(p)) if p == "out/f"));
}

#[test]
fn pool_never_runs_more_than_width() {
    let mut pool = WorkerPool::new(2, 5);
    assert_eq!(pool.try_start(), Some(0));
    assert_eq!(pool.try_start(), Some(1));
    assert_eq!(pool.try_start(), None);
    assert_eq!(pool.running_now(), 2);
    pool.complete();
    assert_eq!(pool.try_start(), Some(2));
    assert_eq!(pool.running_now(), 2);
    pool.complete();
    pool.complete();
    assert_eq!(pool.try_start(), Some(3));
    assert_eq!(pool.try_start(), Some(4));
    assert_eq!(pool.try_start(), None);
    pool.complete();
    assert!(!pool.all_done());
    pool.complete();
    assert!(pool.all_done());
}

fn run_for(size: u64, options: CopyOptions) -> TaskRun {
    let task = FileTask { source: "s".to_string(), destination: "d".to_string(), size };
    TaskRun::new(task, Strategy::Copy, options)
}

#[test]
fn task_resume_over_complete_destination_is_skipped() {
    let mut run = run_for(10, opts(true, false, false));
    let action = run.on_event(TaskEvent::Checked { existing: Some(10) });
    assert!(matches!(action, TaskAction::Finish(TaskOutcome::Skipped)));
    assert!(run.is_finished());
}

#[test]
fn task_conflict_without_policy_fails_file_exists() {
    let mut run = run_for(10, opts(false, false, false));
    let action = run.on_event(TaskEvent::Checked { existing: Some(3) });
    assert!(matches!(action, TaskAction::Finish(TaskOutcome::Failed(CopyError::FileExists(ref p))) if p == "d"));
}

#[test]
fn task_fresh_destination_is_written_then_preserved() {
    let mut run = run_for(10, opts(false, false, false));
    assert!(matches!(run.on_event(TaskEvent::Checked { existing: None }), TaskAction::Write));
    assert!(matches!(run.on_event(TaskEvent::Written { result: Ok(10) }), TaskAction::Preserve));
    assert_eq!(run.stage, TaskStage::Preserving { bytes: 10 });
    let action = run.on_event(TaskEvent::Preserved { status: Ok(()) });
    assert!(matches!(action, TaskAction::Finish(TaskOutcome::Done { bytes: 10 })));
}

#[test]
fn task_forced_removal_failure_names_the_pair() {
    let mut run = run_for(10, opts(false, true, false));
    assert!(matches!(run.on_event(TaskEvent::Checked { existing: Some(1) }), TaskAction::RemoveDestination));
    let action = run.on_event(TaskEvent::Removed { failure: Some("busy".to_string()) });
    match action {
        TaskAction::Finish(TaskOutcome::Failed(e)) => {
            assert_eq!(e.message(), "Failed to copy 's' to 'd': busy");
        }
        other => panic!("unexpected {other:?}"),
    }
}

#[test]
fn task_declined_prompt_is_skipped() {
    let mut run = run_for(10, opts(false, true, true));
    assert!(matches!(run.on_event(TaskEvent::Checked { existing: Some(1) }), TaskAction::Ask));
    let action = run.on_event(TaskEvent::Answered { accepted: false });
    assert!(matches!(action, TaskAction::Finish(TaskOutcome::Skipped)));
}

#[test]
fn task_write_failure_is_reported() {
    let mut run = run_for(10, opts(false, false, false));
    run.on_event(TaskEvent::Checked { existing: None });
    let action = run.on_event(TaskEvent::Written { result: Err("disk full".to_string()) });
    assert!(matches!(action, TaskAction::Finish(TaskOutcome::Failed(CopyError::CopyFailed { .. }))));
}

#[test]
fn answers_to_overwrite_question() {
    assert!(answer_is_yes("y\n"));
    assert!(answer_is_yes("  Y "));
    assert!(!answer_is_yes("yes"));
    assert!(!answer_is_yes(""));
}

#[test]
fn directory_creation_policy() {
    assert_eq!(after_create_dir(None), DirAction::Done);
    assert_eq!(after_create_dir(Some(ErrorKind::AlreadyExists)), DirAction::Done);
    assert_eq!(after_create_dir(Some(ErrorKind::NotFound)), DirAction::CreateWithAncestors);
    assert_eq!(after_create_dir(Some(ErrorKind::PermissionDenied)), DirAction::Abort);
}

#[test]
fn several_sources_need_a_directory() {
    assert!(require_directory("d", true).is_ok());
    assert!(matches!(require_directory("d", false), Err(CopyError::InvalidDestination(ref p)) if p == "d"));
}
