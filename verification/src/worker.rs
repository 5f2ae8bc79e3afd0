//! What a worker does that speaks chapters one after the other.
use crate::chunking::{law_short_text_is_one_request, requests, split_tts_text, texts};
use crate::plan::{
    is_job_of, law_chapters_are_planned_once, planned, ChapterAnswer, ChapterEntry, ChapterJob,
};
use crate::text::{decimal, decimal_text, optional_text, trim};
use vstd::prelude::*;
use vstd::string::*;

verus! {

/// What a worker is at.
#[derive(Debug, Clone, Copy, PartialEq, Eq, Structural)]
pub enum WorkerStep {
    /// It connects to the speech service.
    Connect,
    /// It looks whether the work was called off.
    CheckCancel,
    /// It waits for a job for a while.
    Receive,
    /// It speaks the job that it received, and writes the audio.
    Speak,
    /// It waits for jobs for a while, only to report each as done.
    Drain,
    /// Its work is over.
    Stop,
}

/// What became of a job.
#[derive(Debug, Clone, Copy, PartialEq, Eq, Structural)]
pub enum JobOutcome {
    /// The audio file was written.
    Written,
    /// It could not be written.
    WriteFailed,
    /// There was no audio to write.
    SpeakFailed,
}

/// What a worker meets with.
#[derive(Debug, Clone, Copy, PartialEq, Eq, Structural)]
pub enum WorkerEvent {
    /// The service was reached, or not.
    Connected(bool),
    /// The work was called off, or not.
    Cancelled(bool),
    /// A job came.
    Received,
    /// No job came for a while.
    TimedOut,
    /// No job will come any more.
    Closed,
    /// The job was worked on.
    Finished(JobOutcome),
}

/// What is to be counted of an event.
#[derive(Debug, Clone, Copy, PartialEq, Eq, Structural)]
pub struct Effect {
    /// A chapter was generated.
    pub generated: bool,
    /// Something failed.
    pub failed: bool,
    /// A job is reported as done.
    pub done: bool,
}

/// Whether a worker can meet with the event at this step.
pub open spec fn can_meet(step: WorkerStep, event: WorkerEvent) -> bool {
    match step {
        WorkerStep::Connect => event is Connected,
        WorkerStep::CheckCancel => event is Cancelled,
        WorkerStep::Receive => event is Received || event is TimedOut || event is Closed,
        WorkerStep::Speak => event is Finished,
        WorkerStep::Drain => event is Received || event is TimedOut || event is Closed,
        WorkerStep::Stop => false,
    }
}

/// What a worker is at after the event. Without a connection, and once the work was called off, it
/// only drains the queue, so that nobody waits for a report in vain.
pub open spec fn step_after(step: WorkerStep, event: WorkerEvent) -> WorkerStep {
    match (step, event) {
        (WorkerStep::Connect, WorkerEvent::Connected(true)) => WorkerStep::CheckCancel,
        (WorkerStep::Connect, WorkerEvent::Connected(false)) => WorkerStep::Drain,
        (WorkerStep::CheckCancel, WorkerEvent::Cancelled(true)) => WorkerStep::Drain,
        (WorkerStep::CheckCancel, WorkerEvent::Cancelled(false)) => WorkerStep::Receive,
        (WorkerStep::Receive, WorkerEvent::Received) => WorkerStep::Speak,
        (WorkerStep::Receive, WorkerEvent::TimedOut) => WorkerStep::CheckCancel,
        (WorkerStep::Speak, WorkerEvent::Finished(_)) => WorkerStep::CheckCancel,
        (WorkerStep::Drain, WorkerEvent::Received) => WorkerStep::Drain,
        _ => WorkerStep::Stop,
    }
}

/// What is to be counted of an event.
pub open spec fn effect_of(step: WorkerStep, event: WorkerEvent) -> Effect {
    Effect {
        generated: step is Speak && event == WorkerEvent::Finished(JobOutcome::Written),
        failed: (step is Connect && event == WorkerEvent::Connected(false)) || (step is Speak
            && event is Finished && event != WorkerEvent::Finished(JobOutcome::Written)),
        done: (step is Speak && event is Finished) || (step is Drain && event is Received),
    }
}

/// Works out what a worker does after an event, and what is to be counted of it.
pub fn next_step(step: WorkerStep, event: WorkerEvent) -> (r: (WorkerStep, Effect))
    requires
        can_meet(step, event),
    ensures
        r.0 == step_after(step, event),
        r.1 == effect_of(step, event),
{
    let nothing = Effect { generated: false, failed: false, done: false };
    match (step, event) {
        (WorkerStep::Connect, WorkerEvent::Connected(true)) => (WorkerStep::CheckCancel, nothing),
        (WorkerStep::Connect, WorkerEvent::Connected(false)) => (
            WorkerStep::Drain,
            Effect { generated: false, failed: true, done: false },
        ),
        (WorkerStep::CheckCancel, WorkerEvent::Cancelled(true)) => (WorkerStep::Drain, nothing),
        (WorkerStep::CheckCancel, WorkerEvent::Cancelled(false)) => (WorkerStep::Receive, nothing),
        (WorkerStep::Receive, WorkerEvent::Received) => (WorkerStep::Speak, nothing),
        (WorkerStep::Receive, WorkerEvent::TimedOut) => (WorkerStep::CheckCancel, nothing),
        (WorkerStep::Speak, WorkerEvent::Finished(outcome)) => {
            let written: bool = match outcome {
                JobOutcome::Written => true,
                _ => false,
            };
            (
                WorkerStep::CheckCancel,
                Effect { generated: written, failed: !written, done: true },
            )
        },
        (WorkerStep::Drain, WorkerEvent::Received) => (
            WorkerStep::Drain,
            Effect { generated: false, failed: false, done: true },
        ),
        _ => (WorkerStep::Stop, nothing),
    }
}

/// What a worker is at after the given events.
pub open spec fn step_now(events: Seq<WorkerEvent>) -> WorkerStep
    decreases events.len(),
{
    if events.len() == 0 {
        WorkerStep::Connect
    } else {
        step_after(step_now(events.drop_last()), events.last())
    }
}

/// Whether a worker can meet with the given events, one after the other.
pub open spec fn can_happen(events: Seq<WorkerEvent>) -> bool
    decreases events.len(),
{
    events.len() == 0 || (can_happen(events.drop_last()) && can_meet(
        step_now(events.drop_last()),
        events.last(),
    ))
}

/// How many jobs came with the given events.
pub open spec fn jobs_received(events: Seq<WorkerEvent>) -> nat
    decreases events.len(),
{
    if events.len() == 0 {
        0
    } else {
        jobs_received(events.drop_last()) + if events.last() is Received {
            1nat
        } else {
            0
        }
    }
}

/// How many jobs came and were worked on.
pub open spec fn jobs_finished(events: Seq<WorkerEvent>) -> nat
    decreases events.len(),
{
    if events.len() == 0 {
        0
    } else {
        jobs_finished(events.drop_last()) + if events.last() is Finished {
            1nat
        } else {
            0
        }
    }
}

/// How often an effect was counted.
pub struct Counts {
    pub generated: nat,
    pub failed: nat,
    pub done: nat,
}

/// What was counted of the given events.
pub open spec fn counted(events: Seq<WorkerEvent>) -> Counts
    decreases events.len(),
{
    if events.len() == 0 {
        Counts { generated: 0, failed: 0, done: 0 }
    } else {
        let before = counted(events.drop_last());
        let effect = effect_of(step_now(events.drop_last()), events.last());
        Counts {
            generated: before.generated + if effect.generated {
                1nat
            } else {
                0
            },
            failed: before.failed + if effect.failed {
                1nat
            } else {
                0
            },
            done: before.done + if effect.done {
                1nat
            } else {
                0
            },
        }
    }
}

/// Each job that a worker receives is reported as done exactly once: all of them when it stops,
/// and at any time all but the one that it is speaking.
pub proof fn law_received_jobs_are_reported(events: Seq<WorkerEvent>)
    requires
        can_happen(events),
    ensures
        jobs_received(events) == counted(events).done + if step_now(events) is Speak {
            1nat
        } else {
            0
        },
    decreases events.len(),
{
    if events.len() > 0 {
        law_received_jobs_are_reported(events.drop_last());
    }
}

/// Whether the service could not be reached.
pub open spec fn no_connection(events: Seq<WorkerEvent>) -> bool {
    events.len() > 0 && events[0] == WorkerEvent::Connected(false)
}

/// Each job that a worker works on counts as generated or as failed, and never as both; a failed
/// job does not keep it from going on. Besides, a connection that fails counts as one failure.
#[verifier::rlimit(50)]
pub proof fn law_jobs_are_generated_or_failed(events: Seq<WorkerEvent>)
    requires
        can_happen(events),
    ensures
        counted(events).generated + counted(events).failed == jobs_finished(events)
            + if no_connection(events) {
            1nat
        } else {
            0
        },
        events.len() > 0 && events.last() is Finished ==> step_now(events) is CheckCancel,
    decreases events.len(),
{
    if events.len() > 0 {
        let before = events.drop_last();
        law_jobs_are_generated_or_failed(before);
        if before.len() > 0 {
            assert(before[0] == events[0]);
            lemma_connects_once(before);
        }
    }
}

/// A worker is at its connection only at the start.
proof fn lemma_connects_once(events: Seq<WorkerEvent>)
    requires
        events.len() > 0,
    ensures
        !(step_now(events) is Connect),
{
}

/// Once the work was called off, or where the service could not be reached, a worker speaks no
/// further job: it drains the queue or has stopped.
pub proof fn law_no_job_is_spoken_once_called_off(events: Seq<WorkerEvent>, i: int)
    requires
        can_happen(events),
        0 <= i < events.len(),
        events[i] == WorkerEvent::Cancelled(true) || events[i] == WorkerEvent::Connected(false),
    ensures
        step_now(events) is Drain || step_now(events) is Stop,
        jobs_finished(events) == jobs_finished(events.take(i)),
    decreases events.len(),
{
    let before = events.drop_last();
    if i < before.len() {
        assert(before[i] == events[i]);
        assert(before.take(i) == events.take(i));
        law_no_job_is_spoken_once_called_off(before, i);
    } else {
        assert(events.take(i) == before);
    }
}

/// A worker that drained the queue or was told that no job will come stops; it stops in no other
/// case.
pub proof fn law_a_worker_stops_without_jobs(events: Seq<WorkerEvent>)
    requires
        can_happen(events),
        events.len() > 0,
    ensures
        step_now(events) is Stop <==> events.last() is Closed || (events.last() is TimedOut
            && step_now(events.drop_last()) is Drain),
{
}

/// How a message begins that speaks of a job.
pub open spec fn job_name(idx: nat, title: Seq<char>) -> Seq<char> {
    "[TTS] 章节 "@ + decimal(idx) + "《"@ + title + "》"@
}

/// The message for a job that takes several requests.
pub open spec fn split_message(idx: nat, title: Seq<char>, count: nat) -> Seq<char> {
    job_name(idx, title) + "文本较长，拆分为 "@ + decimal(count) + " 段合成"@
}

fn job_name_text(job: &ChapterJob) -> (r: String)
    ensures
        r@ == job_name(job.idx as nat, job.title@),
{
    let mut message: String = "[TTS] 章节 ".to_string();
    message.append(decimal_text(job.idx as u64).as_str());
    message.append("《");
    message.append(job.title.as_str());
    message.append("》");
    message
}

/// The requests that a job takes, and a message where they are several.
pub fn job_requests(job: &ChapterJob) -> (r: (Vec<String>, Option<String>))
    ensures
        texts(r.0@) == requests(job.text@),
        optional_text(r.1) == (if r.0@.len() > 1 {
            Some(split_message(job.idx as nat, job.title@, r.0@.len()))
        } else {
            None
        }),
{
    let chunks: Vec<String> = split_tts_text(job.text.as_str());
    if chunks.len() > 1 {
        let mut message: String = job_name_text(job);
        message.append("文本较长，拆分为 ");
        message.append(decimal_text(chunks.len() as u64).as_str());
        message.append(" 段合成");
        (chunks, Some(message))
    } else {
        (chunks, None)
    }
}

/// Each job that is planned takes at least one request.
pub proof fn law_planned_jobs_take_requests(
    entries: Seq<ChapterEntry>,
    answers: Seq<ChapterAnswer>,
    ext: Seq<char>,
    j: int,
)
    requires
        answers.len() == entries.len(),
        0 <= j < planned(entries, answers, ext).jobs.len(),
    ensures
        requests(planned(entries, answers, ext).jobs[j].text).len() > 0,
{
    law_chapters_are_planned_once(entries, answers, ext);
    let job = planned(entries, answers, ext).jobs[j];
    assert(is_job_of(job, entries, answers, ext));
    assert(trim(job.text).len() > 0);
    law_short_text_is_one_request(job.text);
}

/// What became of a job for which there was no audio, and the message for it.
pub fn report_unspoken(job: &ChapterJob, error: &str) -> (r: (JobOutcome, String))
    ensures
        r.0 is SpeakFailed,
        r.1@ == job_name(job.idx as nat, job.title@) + "生成失败："@ + error@,
{
    let mut message: String = job_name_text(job);
    message.append("生成失败：");
    message.append(error);
    (JobOutcome::SpeakFailed, message)
}

/// What became of a job whose audio was to be written, and the message where that failed.
pub fn report_written(job: &ChapterJob, written: Result<(), String>) -> (r: (
    JobOutcome,
    Option<String>,
))
    ensures
        written is Ok ==> r.0 is Written && r.1 is None,
        written matches Err(e) ==> r.0 is WriteFailed && optional_text(r.1) == Some(
            job_name(job.idx as nat, job.title@) + "写入失败："@ + e@,
        ),
{
    match written {
        Ok(_) => (JobOutcome::Written, None),
        Err(e) => {
            let mut message: String = job_name_text(job);
            message.append("写入失败：");
            message.append(e.as_str());
            (JobOutcome::WriteFailed, Some(message))
        },
    }
}

/// How many jobs were worked on and written.
pub open spec fn jobs_written(events: Seq<WorkerEvent>) -> nat
    decreases events.len(),
{
    if events.len() == 0 {
        0
    } else {
        jobs_written(events.drop_last()) + if events.last() == WorkerEvent::Finished(
            JobOutcome::Written,
        ) {
            1nat
        } else {
            0
        }
    }
}

/// What counts as generated are the jobs that were written, and no others.
pub proof fn law_written_jobs_are_generated(events: Seq<WorkerEvent>)
    requires
        can_happen(events),
    ensures
        counted(events).generated == jobs_written(events),
    decreases events.len(),
{
    if events.len() > 0 {
        law_written_jobs_are_generated(events.drop_last());
    }
}

/// Whether the service could not be reached, or the work was called off.
pub open spec fn only_drains(events: Seq<WorkerEvent>) -> bool {
    exists|i: int|
        0 <= i < events.len() && (#[trigger] events[i] == WorkerEvent::Cancelled(true) || events[i]
            == WorkerEvent::Connected(false))
}

/// Each event has its consequence. As long as the service was reached and the work was not called
/// off, a job that came is spoken; behind a job, and where none came for a while, it is looked again
/// whether the work was called off, and where it was not, the next job is waited for. Otherwise a job
/// that came is only drained, and the worker stops as soon as none comes.
#[verifier::rlimit(50)]
pub proof fn law_events_have_their_consequences(events: Seq<WorkerEvent>)
    requires
        can_happen(events),
        events.len() > 0,
    ensures
        !only_drains(events) ==> match events.last() {
            WorkerEvent::Connected(_) => step_now(events) is CheckCancel,
            WorkerEvent::Cancelled(_) => step_now(events) is Receive,
            WorkerEvent::Received => step_now(events) is Speak,
            WorkerEvent::TimedOut => step_now(events) is CheckCancel,
            WorkerEvent::Closed => step_now(events) is Stop,
            WorkerEvent::Finished(_) => step_now(events) is CheckCancel,
        },
        only_drains(events) ==> match events.last() {
            WorkerEvent::TimedOut => step_now(events) is Stop,
            WorkerEvent::Closed => step_now(events) is Stop,
            _ => step_now(events) is Drain,
        },
    decreases events.len(),
{
    let before = events.drop_last();
    let last = events.last();
    assert(only_drains(events) <==> only_drains(before) || last == WorkerEvent::Cancelled(true)
        || last == WorkerEvent::Connected(false)) by {
        if only_drains(before) {
            let i = choose|i: int|
                0 <= i < before.len() && (#[trigger] before[i] == WorkerEvent::Cancelled(true)
                    || before[i] == WorkerEvent::Connected(false));
            assert(events[i] == before[i]);
        }
        if only_drains(events) {
            let i = choose|i: int|
                0 <= i < events.len() && (#[trigger] events[i] == WorkerEvent::Cancelled(true)
                    || events[i] == WorkerEvent::Connected(false));
            if i < before.len() {
                assert(before[i] == events[i]);
            }
        }
        assert(events[events.len() - 1] == last);
    }
    if before.len() > 0 {
        law_events_have_their_consequences(before);
        lemma_connects_once(before);
    }
}

/// A message names the job by its number and its title, whole as they are.
pub proof fn law_messages_name_the_job(idx: nat, title: Seq<char>, count: nat)
    ensures
        job_name(idx, title) == "[TTS] 章节 "@ + decimal(idx) + "《"@ + title + "》"@,
        split_message(idx, title, count) == "[TTS] 章节 "@ + decimal(idx) + "《"@ + title + "》"@
            + "文本较长，拆分为 "@ + decimal(count) + " 段合成"@,
{
}

} // verus!
