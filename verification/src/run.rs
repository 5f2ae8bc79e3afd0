//! The course of the work on a book.
use crate::plan::WorkPlan;
use crate::text::{decimal, decimal_text};
use vstd::prelude::*;
use vstd::string::*;

verus! {

/// What the work on a book is at.
#[derive(Debug, Clone, Copy, PartialEq, Eq, Structural)]
pub enum Stage {
    /// It is looked whether there is to be any work.
    Open,
    /// The directory for the audio files is made.
    Prepare,
    /// The cover is exported, and the chapters are gone through.
    Plan,
    /// It is tried whether the speech service can be reached.
    Probe { workers: usize },
    /// That many workers speak the chapters.
    Generate { workers: usize },
    /// The work is over, with its result.
    Over(bool),
}

/// What the work on a book meets with.
#[derive(Debug, Clone, Copy, PartialEq, Eq, Structural)]
pub enum RunEvent {
    /// Audiobooks are wanted, or not; the work was called off, or not.
    Opened { enabled: bool, cancelled: bool },
    /// The directory is there, or could not be made.
    Prepared(bool),
    /// So many chapters are to be spoken, by so many workers as the settings say.
    Planned { jobs: usize, concurrency: usize },
    /// The service was reached, or not.
    Probed(bool),
    /// The workers have stopped; the work was called off meanwhile, or not; so much has failed.
    Generated { cancelled: bool, failed: usize },
}

/// How many workers there are: as many as the settings say, but at least one, and not more than
/// there are jobs.
pub open spec fn workers_for(concurrency: usize, jobs: usize) -> usize {
    let wanted = if concurrency < 1 {
        1
    } else {
        concurrency
    };
    if wanted < jobs {
        wanted
    } else {
        jobs
    }
}

/// How many workers there are.
pub fn worker_count(concurrency: usize, jobs: usize) -> (r: usize)
    ensures
        r == workers_for(concurrency, jobs),
        jobs > 0 ==> 1 <= r <= jobs,
        r <= concurrency || r == 1,
{
    let wanted: usize = if concurrency < 1 {
        1
    } else {
        concurrency
    };
    if wanted < jobs {
        wanted
    } else {
        jobs
    }
}

/// Whether the work can meet with the event at this stage.
pub open spec fn can_follow(stage: Stage, event: RunEvent) -> bool {
    match stage {
        Stage::Open => event is Opened,
        Stage::Prepare => event is Prepared,
        Stage::Plan => event is Planned,
        Stage::Probe { .. } => event is Probed,
        Stage::Generate { .. } => event is Generated,
        Stage::Over(_) => false,
    }
}

/// What the work is at after the event. Where audiobooks are not wanted, or nothing is left to be
/// spoken, it is over and well; where it was called off, or cannot begin, it is over and not.
/// What has failed of single chapters says nothing.
pub open spec fn stage_after(stage: Stage, event: RunEvent) -> Stage {
    match (stage, event) {
        (Stage::Open, RunEvent::Opened { enabled, cancelled }) => if !enabled {
            Stage::Over(true)
        } else if cancelled {
            Stage::Over(false)
        } else {
            Stage::Prepare
        },
        (Stage::Prepare, RunEvent::Prepared(true)) => Stage::Plan,
        (Stage::Plan, RunEvent::Planned { jobs, concurrency }) => if jobs == 0 {
            Stage::Over(true)
        } else {
            Stage::Probe { workers: workers_for(concurrency, jobs) }
        },
        (Stage::Probe { workers }, RunEvent::Probed(true)) => Stage::Generate { workers },
        (Stage::Generate { .. }, RunEvent::Generated { cancelled, .. }) => Stage::Over(!cancelled),
        _ => Stage::Over(false),
    }
}

/// Works out what the work is at after the event.
pub fn next_stage(stage: Stage, event: RunEvent) -> (r: Stage)
    requires
        can_follow(stage, event),
    ensures
        r == stage_after(stage, event),
{
    match (stage, event) {
        (Stage::Open, RunEvent::Opened { enabled, cancelled }) => {
            if !enabled {
                Stage::Over(true)
            } else if cancelled {
                Stage::Over(false)
            } else {
                Stage::Prepare
            }
        },
        (Stage::Prepare, RunEvent::Prepared(true)) => Stage::Plan,
        (Stage::Plan, RunEvent::Planned { jobs, concurrency }) => {
            if jobs == 0 {
                Stage::Over(true)
            } else {
                Stage::Probe { workers: worker_count(concurrency, jobs) }
            }
        },
        (Stage::Probe { workers }, RunEvent::Probed(true)) => Stage::Generate { workers },
        (Stage::Generate { .. }, RunEvent::Generated { cancelled, .. }) => Stage::Over(!cancelled),
        _ => Stage::Over(false),
    }
}

/// What the work is at after the given events.
pub open spec fn stage_now(events: Seq<RunEvent>) -> Stage
    decreases events.len(),
{
    if events.len() == 0 {
        Stage::Open
    } else {
        stage_after(stage_now(events.drop_last()), events.last())
    }
}

/// Whether the work can meet with the given events, one after the other.
pub open spec fn can_run(events: Seq<RunEvent>) -> bool
    decreases events.len(),
{
    events.len() == 0 || (can_run(events.drop_last()) && can_follow(
        stage_now(events.drop_last()),
        events.last(),
    ))
}

/// Whether the event is that the work was called off.
pub open spec fn is_call_off(event: RunEvent) -> bool {
    match event {
        RunEvent::Opened { enabled, cancelled } => enabled && cancelled,
        RunEvent::Generated { cancelled, .. } => cancelled,
        _ => false,
    }
}

/// Whether the event is that the work cannot begin.
pub open spec fn is_fatal(event: RunEvent) -> bool {
    event == RunEvent::Prepared(false) || event == RunEvent::Probed(false)
}

/// Whether the work was called off, or could not begin.
pub open spec fn went_wrong(events: Seq<RunEvent>) -> bool {
    exists|i: int|
        0 <= i < events.len() && (is_call_off(#[trigger] events[i]) || is_fatal(events[i]))
}

/// The result of the work says whether it was neither called off nor kept from beginning, and
/// nothing else: chapters that failed leave it as it is.
pub proof fn law_result_says_whether_work_was_done(events: Seq<RunEvent>)
    requires
        can_run(events),
    ensures
        stage_now(events) matches Stage::Over(result) ==> result == !went_wrong(events),
        !(stage_now(events) is Over) ==> !went_wrong(events),
    decreases events.len(),
{
    if events.len() > 0 {
        let before = events.drop_last();
        law_result_says_whether_work_was_done(before);
        let last = events.last();
        assert(went_wrong(events) <==> went_wrong(before) || is_call_off(last) || is_fatal(last)) by {
            if went_wrong(before) {
                let i = choose|i: int|
                    0 <= i < before.len() && (is_call_off(#[trigger] before[i]) || is_fatal(
                        before[i],
                    ));
                assert(events[i] == before[i]);
            }
            if went_wrong(events) {
                let i = choose|i: int|
                    0 <= i < events.len() && (is_call_off(#[trigger] events[i]) || is_fatal(
                        events[i],
                    ));
                if i < before.len() {
                    assert(before[i] == events[i]);
                }
            }
            assert(events[events.len() - 1] == last);
        }
    }
}

/// Chapters are spoken only where some are to be spoken, and then by at least one worker.
pub proof fn law_chapters_are_spoken_by_workers(events: Seq<RunEvent>)
    requires
        can_run(events),
    ensures
        stage_now(events) matches Stage::Probe { workers } ==> workers >= 1,
        stage_now(events) matches Stage::Generate { workers } ==> workers >= 1,
    decreases events.len(),
{
    if events.len() > 0 {
        law_chapters_are_spoken_by_workers(events.drop_last());
    }
}

/// How many chapters the work is about: those to be spoken and those whose audio is there already.
pub fn total_work(plan: &WorkPlan) -> (r: usize)
    requires
        plan.jobs@.len() + plan.finished@.len() <= usize::MAX,
    ensures
        r == plan.jobs@.len() + plan.finished@.len(),
{
    plan.jobs.len() + plan.finished.len()
}

/// What is shown of the chapters whose audio is there already: nothing where there are none.
pub open spec fn skipped_text(count: nat) -> Seq<char> {
    if count == 0 {
        Seq::empty()
    } else {
        "已跳过 "@ + decimal(count) + " 章"@
    }
}

/// What is shown of the chapters whose audio is there already.
pub fn skipped_message(count: usize) -> (r: String)
    ensures
        r@ == skipped_text(count as nat),
{
    let mut message: String = String::new();
    if count > 0 {
        message.append("已跳过 ");
        message.append(decimal_text(count as u64).as_str());
        message.append(" 章");
        assert(message@ == skipped_text(count as nat));
    }
    message
}

/// Each event has its consequence, up to the end of the work: the directory is made where audiobooks
/// are wanted; the chapters are gone through where it is there; the service is tried where some are
/// to be spoken; and where it was reached, the chapters are spoken, by as many workers as there were
/// to be: at least one, not more than there are chapters, and as many as the settings say, where
/// that is neither less nor more.
pub proof fn law_events_have_their_consequences(events: Seq<RunEvent>)
    requires
        can_run(events),
        events.len() > 0,
    ensures
        match events.last() {
            RunEvent::Opened { enabled, cancelled } => {
                &&& enabled && !cancelled ==> stage_now(events) is Prepare
                &&& enabled && cancelled ==> stage_now(events) == Stage::Over(false)
                &&& !enabled ==> stage_now(events) == Stage::Over(true)
            },
            RunEvent::Prepared(made) => if made {
                stage_now(events) is Plan
            } else {
                stage_now(events) == Stage::Over(false)
            },
            RunEvent::Planned { jobs, concurrency } => {
                &&& jobs == 0 ==> stage_now(events) == Stage::Over(true)
                &&& jobs > 0 ==> (stage_now(events) matches Stage::Probe { workers } && 1 <= workers
                    <= jobs && (workers <= concurrency || workers == 1) && (workers == jobs
                    || workers >= concurrency))
            },
            RunEvent::Probed(reached) => if reached {
                stage_now(events.drop_last()) matches Stage::Probe { workers } && stage_now(events)
                    == (Stage::Generate { workers })
            } else {
                stage_now(events) == Stage::Over(false)
            },
            RunEvent::Generated { cancelled, .. } => stage_now(events) == Stage::Over(!cancelled),
        },
{
}

/// Of the chapters whose audio is there already their number is shown, and nothing where there are
/// none.
pub proof fn law_skipped_chapters_are_counted(count: nat)
    ensures
        count > 0 ==> skipped_text(count) == "已跳过 "@ + decimal(count) + " 章"@,
        skipped_text(0) == Seq::<char>::empty(),
{
}

} // verus!
