use audiobook::plan::{ChapterJob, WorkPlan};
use audiobook::run::{next_stage, skipped_message, total_work, worker_count, RunEvent, Stage};

fn run(events: &[RunEvent]) -> Stage {
    events.iter().fold(Stage::Open, |stage, event| next_stage(stage, *event))
}

const OPENED: RunEvent = RunEvent::Opened { enabled: true, cancelled: false };
const PLANNED: RunEvent = RunEvent::Planned { jobs: 5, concurrency: 3 };

#[test]
fn a_run_that_goes_well() {
    let events = [
        OPENED,
        RunEvent::Prepared(true),
        PLANNED,
        RunEvent::Probed(true),
        RunEvent::Generated { cancelled: false, failed: 2 },
    ];
    assert_eq!(run(&events[..4]), Stage::Generate { workers: 3 });
    assert_eq!(run(&events), Stage::Over(true));
}

#[test]
fn runs_with_nothing_to_do() {
    assert_eq!(run(&[RunEvent::Opened { enabled: false, cancelled: true }]), Stage::Over(true));
    let none = RunEvent::Planned { jobs: 0, concurrency: 3 };
    assert_eq!(run(&[OPENED, RunEvent::Prepared(true), none]), Stage::Over(true));
}

#[test]
fn runs_that_are_called_off_or_cannot_begin() {
    assert_eq!(run(&[RunEvent::Opened { enabled: true, cancelled: true }]), Stage::Over(false));
    assert_eq!(run(&[OPENED, RunEvent::Prepared(false)]), Stage::Over(false));
    let probed = [OPENED, RunEvent::Prepared(true), PLANNED, RunEvent::Probed(false)];
    assert_eq!(run(&probed), Stage::Over(false));
    let cancelled = [
        OPENED,
        RunEvent::Prepared(true),
        PLANNED,
        RunEvent::Probed(true),
        RunEvent::Generated { cancelled: true, failed: 0 },
    ];
    assert_eq!(run(&cancelled), Stage::Over(false));
}

#[test]
fn workers_are_counted() {
    assert_eq!(worker_count(0, 5), 1);
    assert_eq!(worker_count(3, 5), 3);
    assert_eq!(worker_count(8, 5), 5);
    assert_eq!(worker_count(8, 0), 0);
}

#[test]
fn work_is_counted() {
    let job = ChapterJob {
        idx: 1,
        title: String::new(),
        text: String::new(),
        file_name: String::new(),
        tmp_name: String::new(),
    };
    let plan = WorkPlan { jobs: vec![job], finished: vec![String::new(), String::new()] };
    assert_eq!(total_work(&plan), 3);
    assert_eq!(skipped_message(0), "");
    assert_eq!(skipped_message(2), "已跳过 2 章");
}
