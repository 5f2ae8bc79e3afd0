use audiobook::chunking::TTS_CHUNK_MAX_CHARS;
use audiobook::plan::ChapterJob;
use audiobook::worker::{
    job_requests, next_step, report_unspoken, report_written, JobOutcome, WorkerEvent, WorkerStep,
};

fn job(text: &str) -> ChapterJob {
    ChapterJob {
        idx: 3,
        title: "题".to_string(),
        text: text.to_string(),
        file_name: "0003-题.mp3".to_string(),
        tmp_name: "0003-题.mp3.partial".to_string(),
    }
}

/// What was generated, failed and done, and the step at the end.
fn run(events: &[WorkerEvent]) -> (usize, usize, usize, WorkerStep) {
    let mut step = WorkerStep::Connect;
    let (mut generated, mut failed, mut done) = (0, 0, 0);
    for event in events {
        let (next, effect) = next_step(step, *event);
        step = next;
        generated += effect.generated as usize;
        failed += effect.failed as usize;
        done += effect.done as usize;
    }
    (generated, failed, done, step)
}

#[test]
fn jobs_are_spoken_until_none_come() {
    let events = [
        WorkerEvent::Connected(true),
        WorkerEvent::Cancelled(false),
        WorkerEvent::Received,
        WorkerEvent::Finished(JobOutcome::Written),
        WorkerEvent::Cancelled(false),
        WorkerEvent::TimedOut,
        WorkerEvent::Cancelled(false),
        WorkerEvent::Received,
        WorkerEvent::Finished(JobOutcome::SpeakFailed),
        WorkerEvent::Cancelled(false),
        WorkerEvent::Received,
        WorkerEvent::Finished(JobOutcome::WriteFailed),
        WorkerEvent::Cancelled(false),
        WorkerEvent::Closed,
    ];
    assert_eq!(run(&events), (1, 2, 3, WorkerStep::Stop));
    assert_eq!(run(&events[..3]), (0, 0, 0, WorkerStep::Speak));
}

#[test]
fn without_a_connection_jobs_are_only_reported() {
    let events = [
        WorkerEvent::Connected(false),
        WorkerEvent::Received,
        WorkerEvent::Received,
        WorkerEvent::TimedOut,
    ];
    assert_eq!(run(&events), (0, 1, 2, WorkerStep::Stop));
}

#[test]
fn once_called_off_jobs_are_only_reported() {
    let events = [
        WorkerEvent::Connected(true),
        WorkerEvent::Cancelled(false),
        WorkerEvent::Received,
        WorkerEvent::Finished(JobOutcome::Written),
        WorkerEvent::Cancelled(true),
        WorkerEvent::Received,
        WorkerEvent::Closed,
    ];
    assert_eq!(run(&events), (1, 0, 2, WorkerStep::Stop));
}

#[test]
fn long_chapters_are_announced() {
    let (chunks, message) = job_requests(&job("短文。"));
    assert_eq!(chunks, ["短文。"]);
    assert_eq!(message, None);
    let (chunks, message) = job_requests(&job(&"长".repeat(TTS_CHUNK_MAX_CHARS + 1)));
    assert_eq!(chunks.len(), 2);
    assert_eq!(message, Some("[TTS] 章节 3《题》文本较长，拆分为 2 段合成".to_string()));
    assert!(job_requests(&job("")).0.is_empty());
}

#[test]
fn outcomes_are_reported() {
    assert_eq!(report_written(&job("x"), Ok(())), (JobOutcome::Written, None));
    assert_eq!(
        report_written(&job("x"), Err("磁盘已满".to_string())),
        (JobOutcome::WriteFailed, Some("[TTS] 章节 3《题》写入失败：磁盘已满".to_string()))
    );
    assert_eq!(
        report_unspoken(&job("x"), "断线"),
        (JobOutcome::SpeakFailed, "[TTS] 章节 3《题》生成失败：断线".to_string())
    );
}
