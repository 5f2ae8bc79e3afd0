//! Having a chapter spoken, request by request.
use crate::chunking::texts;
use crate::settings::{is_wav_audio_format, is_wav_format};
use crate::text::{decimal, decimal_text};
use crate::wav::{
    all_have_format, all_samples, bytes_agree, concatenate_wav_chunks, contents, joined_wav,
    law_header_states_length, law_joined_wav_holds_all_samples, law_wav_files_join_when_formats_agree,
    lemma_gathered_when_formats_agree, riff_size, wav_parts,
};
use std::sync::atomic::AtomicBool;
use std::sync::Arc;
use vstd::prelude::*;
use vstd::string::*;

verus! {

/// The given bytes, one after the other.
pub open spec fn one_after_the_other(parts: Seq<Seq<u8>>) -> Seq<u8>
    decreases parts.len(),
{
    if parts.len() == 0 {
        Seq::empty()
    } else {
        one_after_the_other(parts.drop_last()) + parts.last()
    }
}

/// The audio that several pieces of audio make up, or why they make up none. Pieces of WAV audio
/// are joined to one file; pieces of any other format are put one after the other.
pub open spec fn joined_audio(format: Seq<char>, parts: Seq<Seq<u8>>) -> Result<
    Seq<u8>,
    Seq<char>,
> {
    if parts.len() == 0 {
        Ok(Seq::empty())
    } else if parts.len() == 1 {
        Ok(parts[0])
    } else if is_wav_format(format) {
        joined_wav(parts)
    } else if one_after_the_other(parts).len() > usize::MAX {
        Err("音频大小溢出"@)
    } else {
        Ok(one_after_the_other(parts))
    }
}

proof fn lemma_prefix_is_no_longer(parts: Seq<Seq<u8>>, k: int)
    requires
        0 <= k <= parts.len(),
    ensures
        one_after_the_other(parts.take(k)).len() <= one_after_the_other(parts).len(),
    decreases parts.len() - k,
{
    if k < parts.len() {
        assert(parts.take(k + 1).drop_last() == parts.take(k));
        lemma_prefix_is_no_longer(parts, k + 1);
    } else {
        assert(parts.take(k) == parts);
    }
}

/// The length of all pieces together, where a `usize` can hold it.
fn total_len(chunks: &Vec<Vec<u8>>) -> (r: Option<usize>)
    ensures
        r matches Some(n) ==> n == one_after_the_other(contents(chunks@)).len(),
        r is None ==> one_after_the_other(contents(chunks@)).len() > usize::MAX,
{
    let ghost parts = contents(chunks@);
    let mut total: usize = 0;
    let mut i: usize = 0;
    while i < chunks.len()
        invariant
            parts == contents(chunks@),
            i <= chunks@.len(),
            total == one_after_the_other(parts.take(i as int)).len(),
        decreases chunks@.len() - i,
    {
        proof {
            assert(parts.take(i + 1).drop_last() == parts.take(i as int));
            assert(parts.take(i + 1).last() == chunks@[i as int]@);
        }
        match total.checked_add(chunks[i].len()) {
            Some(n) => {
                total = n;
            },
            None => {
                proof {
                    lemma_prefix_is_no_longer(parts, i + 1);
                }
                return None;
            },
        }
        i += 1;
    }
    assert(parts.take(i as int) == parts);
    Some(total)
}

/// Joins pieces of audio of one format.
pub fn concatenate_audio_chunks(audio_format: &str, chunks: Vec<Vec<u8>>) -> (r: Result<
    Vec<u8>,
    String,
>)
    ensures
        bytes_agree(r, joined_audio(audio_format@, contents(chunks@))),
        chunks@.len() > 1 && !is_wav_format(audio_format@) ==> match r {
            Ok(bytes) => bytes@ == contents(chunks@).flatten(),
            Err(_) => contents(chunks@).flatten().len() > usize::MAX,
        },
{
    let ghost parts = contents(chunks@);
    proof {
        lemma_one_after_the_other_is_flat(parts);
    }
    let mut chunks = chunks;
    if chunks.len() == 0 {
        return Ok(Vec::new());
    }
    if chunks.len() == 1 {
        let only: Vec<u8> = chunks.remove(0);
        assert(only@ == parts[0]);
        return Ok(only);
    }
    if is_wav_audio_format(audio_format) {
        return concatenate_wav_chunks(chunks);
    }
    if total_len(&chunks).is_none() {
        return Err("音频大小溢出".to_string());
    }
    let mut out: Vec<u8> = Vec::new();
    let mut i: usize = 0;
    while i < chunks.len()
        invariant
            parts == contents(chunks@),
            i <= chunks@.len(),
            out@ == one_after_the_other(parts.take(i as int)),
        decreases chunks@.len() - i,
    {
        let ghost before = out@;
        proof {
            assert(parts.take(i + 1).drop_last() == parts.take(i as int));
            assert(parts.take(i + 1).last() == chunks@[i as int]@);
        }
        out.extend_from_slice(chunks[i].as_slice());
        assert(out@ == before + chunks@[i as int]@);
        i += 1;
    }
    assert(parts.take(i as int) == parts);
    Ok(out)
}

/// Whether `up` is what a relaxed `AtomicBool::load` of the flag gives.
pub open spec fn load_gives(flag: AtomicBool, up: bool) -> bool {
    call_ensures(AtomicBool::load, (&flag, std::sync::atomic::Ordering::Relaxed), up)
}

/// Whether `up` is what a look gives at whether the work was called off: what a load of the flag
/// gives; where nobody can call the work off, it never is.
pub open spec fn look_gives(cancel: Option<&Arc<AtomicBool>>, up: bool) -> bool {
    match cancel {
        Some(flag) => load_gives(**flag, up),
        None => !up,
    }
}

/// Looks at the flag with the given function.
fn look_at<L: Fn(&AtomicBool, std::sync::atomic::Ordering) -> bool>(
    load: L,
    flag: &AtomicBool,
) -> (up: bool)
    requires
        call_requires(load, (flag, std::sync::atomic::Ordering::Relaxed)),
    ensures
        call_ensures(load, (flag, std::sync::atomic::Ordering::Relaxed), up),
{
    load(flag, std::sync::atomic::Ordering::Relaxed)
}

/// Tests whether the work was called off: what the flag is found to hold; where nobody can call it
/// off it never is. Which of the two a flag is found to hold is not stated: another thread may
/// raise it at any time.
pub fn tts_cancelled(cancel: Option<&Arc<AtomicBool>>) -> (r: bool)
    ensures
        look_gives(cancel, r),
{
    match cancel {
        Some(flag) => look_at(AtomicBool::load, flag),
        None => false,
    }
}

/// What the service answers to a request: audio, or what went wrong.
pub type Reply = Result<Seq<u8>, Seq<char>>;

/// An answer as a value of the model.
pub open spec fn reply_view(r: Result<Vec<u8>, String>) -> Reply {
    match r {
        Ok(bytes) => Ok(bytes@),
        Err(e) => Err(e@),
    }
}

/// How a message names the request `number` of `total`.
pub open spec fn request_name(number: int, total: int) -> Seq<char> {
    "第 "@ + decimal(number as nat) + "/"@ + decimal(total as nat) + " 段"@
}

/// The audio that an answer brings, or the message for an answer that brings none.
pub open spec fn checked_reply(number: int, total: int, reply: Reply) -> Reply {
    match reply {
        Err(e) => Err(request_name(number, total) + "合成失败："@ + e),
        Ok(bytes) => if bytes.len() == 0 {
            Err(request_name(number, total) + "未返回音频"@)
        } else {
            Ok(bytes)
        },
    }
}

/// The audio that the answers brought.
pub open spec fn audio_of(replies: Seq<Reply>) -> Seq<Seq<u8>> {
    Seq::new(replies.len(), |i: int| replies[i]->Ok_0)
}

/// Whether each of the answers brought audio.
pub open spec fn all_good(replies: Seq<Reply>) -> bool {
    forall|i: int| 0 <= i < replies.len() ==> (#[trigger] replies[i] matches Ok(b) && b.len() > 0)
}

/// The audio of a chapter once every request was answered with audio, or why there is none.
pub open spec fn joined_reply(format: Seq<char>, parts: Seq<Seq<u8>>) -> Reply {
    match joined_audio(format, parts) {
        Ok(bytes) => Ok(bytes),
        Err(e) => Err("音频拼接失败："@ + e),
    }
}

/// What becomes of a chapter of two or more requests, of which these were answered. All answers
/// but the last brought audio; where the last did too and requests are left, the work was called
/// off.
pub open spec fn spoken_reply(format: Seq<char>, total: int, replies: Seq<Reply>) -> Reply {
    if replies.len() > 0 && !all_good(replies) {
        checked_reply(replies.len() as int, total, replies.last())
    } else if replies.len() < total {
        Err("已取消"@)
    } else {
        joined_reply(format, audio_of(replies))
    }
}

/// Whether requests are made up to these answers and no further, where `looks` holds what each look
/// gave at whether the work was called off. To each request belongs a look that gave that the work
/// goes on. The first answer without audio is the last; where there is none and requests are left,
/// one more look gave that the work was called off. In which order looks and answers come is not
/// said here: see `step_now`.
pub open spec fn ends_in_time(total: int, replies: Seq<Reply>, looks: Seq<bool>) -> bool {
    &&& replies.len() <= total
    &&& replies.len() <= looks.len() <= replies.len() + 1
    &&& forall|i: int| 0 <= i < replies.len() ==> !#[trigger] looks[i]
    &&& replies.len() > 0 ==> all_good(replies.drop_last())
    &&& looks.len() > replies.len() <==> all_good(replies) && replies.len() < total
    &&& looks.len() > replies.len() ==> looks.last()
}

/// Whether each of the looks gave what a look gives.
pub open spec fn all_looked(cancel: Option<&Arc<AtomicBool>>, looks: Seq<bool>) -> bool {
    forall|i: int| 0 <= i < looks.len() ==> look_gives(cancel, #[trigger] looks[i])
}

/// Whether `reply` is an answer of `synthesize` for the text `t`.
pub open spec fn answers<F: FnMut(&str) -> Result<Vec<u8>, String>>(
    synthesize: F,
    t: &str,
    reply: Result<Vec<u8>, String>,
) -> bool {
    call_ensures(synthesize, (t,), reply)
}

/// Whether `reply` is an answer of `synthesize` for the given text.
pub open spec fn replied<F: FnMut(&str) -> Result<Vec<u8>, String>>(
    synthesize: F,
    text: Seq<char>,
    reply: Reply,
) -> bool {
    exists|t: &str, x: Result<Vec<u8>, String>| #[trigger]
        answers(synthesize, t, x) && t@ == text && reply_view(x) == reply
}

/// Whether the answers are those of `synthesize` to the first of the requests, in order.
pub open spec fn all_replied<F: FnMut(&str) -> Result<Vec<u8>, String>>(
    synthesize: F,
    requests: Seq<Seq<char>>,
    replies: Seq<Reply>,
) -> bool {
    &&& replies.len() <= requests.len()
    &&& forall|i: int|
        0 <= i < replies.len() ==> replied(synthesize, requests[i], #[trigger] replies[i])
}

/// What is done next in having a chapter spoken, with the audio that the answers so far brought.
pub enum ChapterStep {
    /// It is looked whether the work was called off.
    Look { audio: Vec<Vec<u8>> },
    /// The next request is made: the first of those that are not answered.
    Ask { audio: Vec<Vec<u8>> },
    /// Nothing: this has become of the chapter.
    Over(Result<Vec<u8>, String>),
}

/// What is met with in having a chapter spoken.
pub enum ChapterEvent {
    /// A look gave that the work was called off, or that it goes on.
    Looked(bool),
    /// A request was answered.
    Replied(Result<Vec<u8>, String>),
}

/// A step, taken as its values.
#[verifier::ext_equal]
pub enum StepView {
    Look { audio: Seq<Seq<u8>> },
    Ask { audio: Seq<Seq<u8>> },
    Over(Reply),
}

/// An event, taken as its values.
pub enum EventView {
    Looked(bool),
    Replied(Reply),
}

/// A step, taken as its values.
pub open spec fn step_view(step: ChapterStep) -> StepView {
    match step {
        ChapterStep::Look { audio } => StepView::Look { audio: contents(audio@) },
        ChapterStep::Ask { audio } => StepView::Ask { audio: contents(audio@) },
        ChapterStep::Over(r) => StepView::Over(reply_view(r)),
    }
}

/// An event, taken as its values.
pub open spec fn event_view(event: ChapterEvent) -> EventView {
    match event {
        ChapterEvent::Looked(up) => EventView::Looked(up),
        ChapterEvent::Replied(reply) => EventView::Replied(reply_view(reply)),
    }
}

/// Whether the event is one that the step can meet with.
pub open spec fn can_meet(step: StepView, event: EventView) -> bool {
    match step {
        StepView::Look { .. } => event is Looked,
        StepView::Ask { .. } => event is Replied,
        StepView::Over(_) => false,
    }
}

/// What is done after the event. A request is made behind a look that gave that the work goes on,
/// and behind an answer with audio comes the next look, as long as requests are left.
pub open spec fn step_after(
    format: Seq<char>,
    total: int,
    step: StepView,
    event: EventView,
) -> StepView {
    match (step, event) {
        (StepView::Look { audio }, EventView::Looked(up)) => if up {
            StepView::Over(Err("已取消"@))
        } else {
            StepView::Ask { audio }
        },
        (StepView::Ask { audio }, EventView::Replied(reply)) => match checked_reply(
            (audio.len() + 1) as int,
            total,
            reply,
        ) {
            Err(e) => StepView::Over(Err(e)),
            Ok(bytes) => if audio.len() + 1 < total {
                StepView::Look { audio: audio.push(bytes) }
            } else {
                StepView::Over(joined_reply(format, audio.push(bytes)))
            },
        },
        _ => step,
    }
}

/// What is done after the given events, for a chapter of `total` requests.
pub open spec fn step_now(format: Seq<char>, total: int, events: Seq<EventView>) -> StepView
    decreases events.len(),
{
    if events.len() == 0 {
        StepView::Look { audio: Seq::empty() }
    } else {
        step_after(format, total, step_now(format, total, events.drop_last()), events.last())
    }
}

/// Whether the given events can be met with, one after the other.
pub open spec fn can_happen(format: Seq<char>, total: int, events: Seq<EventView>) -> bool
    decreases events.len(),
{
    events.len() == 0 || (can_happen(format, total, events.drop_last()) && can_meet(
        step_now(format, total, events.drop_last()),
        events.last(),
    ))
}

/// The answers among the events.
pub open spec fn replies_of(events: Seq<EventView>) -> Seq<Reply>
    decreases events.len(),
{
    if events.len() == 0 {
        Seq::empty()
    } else {
        match events.last() {
            EventView::Replied(reply) => replies_of(events.drop_last()).push(reply),
            EventView::Looked(_) => replies_of(events.drop_last()),
        }
    }
}

/// What the looks among the events gave.
pub open spec fn looks_of(events: Seq<EventView>) -> Seq<bool>
    decreases events.len(),
{
    if events.len() == 0 {
        Seq::empty()
    } else {
        match events.last() {
            EventView::Looked(up) => looks_of(events.drop_last()).push(up),
            EventView::Replied(_) => looks_of(events.drop_last()),
        }
    }
}

/// Whether `r` is what becomes of the requests through the given events: they can be met with one
/// after the other, up to the end; each look gave what a look gives, and each answer is one to its
/// request.
pub open spec fn comes_of<F: FnMut(&str) -> Result<Vec<u8>, String>>(
    r: Result<Vec<u8>, String>,
    synthesize: F,
    requests: Seq<Seq<char>>,
    format: Seq<char>,
    cancel: Option<&Arc<AtomicBool>>,
    events: Seq<EventView>,
) -> bool {
    &&& can_happen(format, requests.len() as int, events)
    &&& all_looked(cancel, looks_of(events))
    &&& all_replied(synthesize, requests, replies_of(events))
    &&& step_now(format, requests.len() as int, events) == StepView::Over(reply_view(r))
}

/// Builds how a message names the request `number` of `total`.
fn request_name_text(number: usize, total: usize) -> (r: String)
    ensures
        r@ == request_name(number as int, total as int),
{
    let mut message: String = "第 ".to_string();
    message.append(decimal_text(number as u64).as_str());
    message.append("/");
    message.append(decimal_text(total as u64).as_str());
    message.append(" 段");
    message
}

/// Takes the answer to the request `number` of `total`: its audio, or the message for an answer
/// that brings none.
pub fn check_reply(number: usize, total: usize, reply: Result<Vec<u8>, String>) -> (r: Result<
    Vec<u8>,
    String,
>)
    ensures
        reply_view(r) == checked_reply(number as int, total as int, reply_view(reply)),
{
    match reply {
        Ok(bytes) => {
            if bytes.len() == 0 {
                let mut message: String = request_name_text(number, total);
                message.append("未返回音频");
                return Err(message);
            }
            Ok(bytes)
        },
        Err(e) => {
            let mut message: String = request_name_text(number, total);
            message.append("合成失败：");
            message.append(e.as_str());
            Err(message)
        },
    }
}

/// Says whether the next request may be made, given what was found when it was looked whether the
/// work was called off; the message where it may not.
pub fn check_call_off(called_off: bool) -> (r: Result<(), String>)
    ensures
        r is Err <==> called_off,
        r matches Err(message) ==> message@ == "已取消"@,
{
    if called_off {
        Err("已取消".to_string())
    } else {
        Ok(())
    }
}

/// Joins the audio of all requests of a chapter.
pub fn join_replies(audio_format: &str, audio: Vec<Vec<u8>>) -> (r: Result<Vec<u8>, String>)
    ensures
        reply_view(r) == joined_reply(audio_format@, contents(audio@)),
{
    match concatenate_audio_chunks(audio_format, audio) {
        Ok(bytes) => Ok(bytes),
        Err(e) => {
            let mut message: String = "音频拼接失败：".to_string();
            message.append(e.as_str());
            Err(message)
        },
    }
}

/// Whether requests are left at this step.
pub open spec fn requests_are_left(step: StepView, total: int) -> bool {
    match step {
        StepView::Look { audio } => audio.len() < total,
        StepView::Ask { audio } => audio.len() < total,
        StepView::Over(_) => true,
    }
}

/// Works out what is done after an event in having a chapter of `total` requests spoken.
#[verifier::rlimit(50)]
pub fn next_chapter_step(
    audio_format: &str,
    total: usize,
    step: ChapterStep,
    event: ChapterEvent,
) -> (r: ChapterStep)
    requires
        can_meet(step_view(step), event_view(event)),
        requests_are_left(step_view(step), total as int),
    ensures
        step_view(r) == step_after(audio_format@, total as int, step_view(step), event_view(event)),
        requests_are_left(step_view(r), total as int),
{
    match (step, event) {
        (ChapterStep::Look { audio }, ChapterEvent::Looked(up)) => match check_call_off(up) {
            Ok(_) => ChapterStep::Ask { audio },
            Err(message) => ChapterStep::Over(Err(message)),
        },
        (ChapterStep::Ask { audio }, ChapterEvent::Replied(reply)) => {
            let mut audio = audio;
            let ghost before = contents(audio@);
            match check_reply(audio.len() + 1, total, reply) {
                Err(message) => ChapterStep::Over(Err(message)),
                Ok(bytes) => {
                    assert(contents(audio@.push(bytes)) == before.push(bytes@));
                    audio.push(bytes);
                    if audio.len() < total {
                        ChapterStep::Look { audio }
                    } else {
                        ChapterStep::Over(join_replies(audio_format, audio))
                    }
                },
            }
        },
        (step, _) => step,
    }
}

/// Whether no look gave that the work was called off.
spec fn none_up(looks: Seq<bool>) -> bool {
    forall|i: int| 0 <= i < looks.len() ==> !#[trigger] looks[i]
}

/// What a step says of the answers and the looks so far.
spec fn step_tells(
    format: Seq<char>,
    total: int,
    step: StepView,
    replies: Seq<Reply>,
    looks: Seq<bool>,
) -> bool {
    match step {
        StepView::Look { audio } => {
            &&& all_good(replies)
            &&& audio == audio_of(replies)
            &&& none_up(looks)
            &&& looks.len() == replies.len() < total
        },
        StepView::Ask { audio } => {
            &&& all_good(replies)
            &&& audio == audio_of(replies)
            &&& none_up(looks)
            &&& looks.len() == replies.len() + 1 <= total
        },
        StepView::Over(r) => {
            &&& ends_in_time(total, replies, looks)
            &&& r == spoken_reply(format, total, replies)
        },
    }
}

proof fn lemma_one_more_reply(replies: Seq<Reply>, reply: Reply)
    requires
        all_good(replies),
    ensures
        replies.push(reply).drop_last() == replies,
        audio_of(replies.push(reply)) == audio_of(replies).push(reply->Ok_0),
        all_good(replies.push(reply)) <==> (reply matches Ok(b) && b.len() > 0),
{
    let more = replies.push(reply);
    assert(more[replies.len() as int] == reply);
    assert forall|i: int| 0 <= i < replies.len() implies (#[trigger] more[i] matches Ok(b) && b.len()
        > 0) by {
        assert(more[i] == replies[i]);
    }
}

proof fn lemma_one_more_look(looks: Seq<bool>, up: bool)
    requires
        none_up(looks),
    ensures
        none_up(looks.push(up)) <==> !up,
        forall|i: int| 0 <= i < looks.len() ==> !#[trigger] looks.push(up)[i],
{
    let more = looks.push(up);
    assert(more[looks.len() as int] == up);
    assert forall|i: int| 0 <= i < looks.len() implies !#[trigger] more[i] by {
        assert(more[i] == looks[i]);
    }
}

#[verifier::rlimit(50)]
proof fn lemma_step_tells(format: Seq<char>, total: int, events: Seq<EventView>)
    requires
        total > 0,
        can_happen(format, total, events),
    ensures
        step_tells(
            format,
            total,
            step_now(format, total, events),
            replies_of(events),
            looks_of(events),
        ),
    decreases events.len(),
{
    if events.len() == 0 {
        assert(audio_of(replies_of(events)) == Seq::<Seq<u8>>::empty());
    } else {
        let before = events.drop_last();
        let replies = replies_of(before);
        let looks = looks_of(before);
        lemma_step_tells(format, total, before);
        match events.last() {
            EventView::Looked(up) => {
                lemma_one_more_look(looks, up);
                if up && replies.len() > 0 {
                    assert(all_good(replies.drop_last()));
                }
            },
            EventView::Replied(reply) => {
                lemma_one_more_reply(replies, reply);
            },
        }
    }
}

/// What becomes of a chapter through events that can be met with is what its answers make of it,
/// and they and the looks end in time.
pub proof fn law_course_ends_in_time(format: Seq<char>, total: int, events: Seq<EventView>)
    requires
        total > 0,
        can_happen(format, total, events),
        step_now(format, total, events) is Over,
    ensures
        ends_in_time(total, replies_of(events), looks_of(events)),
        step_now(format, total, events) == StepView::Over(
            spoken_reply(format, total, replies_of(events)),
        ),
{
    lemma_step_tells(format, total, events);
}

/// Looks and answers take turns: the event `i` is a look or an answer, as `i` is even or odd. So a
/// look stands directly before each answer, and gave that the work goes on; and the answer is that
/// to the next request, each of which is made once.
#[verifier::rlimit(50)]
pub proof fn law_a_look_stands_before_each_request(
    format: Seq<char>,
    total: int,
    events: Seq<EventView>,
    i: int,
)
    requires
        total > 0,
        can_happen(format, total, events),
        0 <= i < events.len(),
    ensures
        events[i] is Looked <==> i % 2 == 0,
        events[i] is Replied ==> {
            &&& events[i - 1] == EventView::Looked(false)
            &&& step_now(format, total, events.take(i)) is Ask
            &&& replies_of(events.take(i)).len() == i / 2
            &&& step_now(format, total, events.take(i))->Ask_audio == audio_of(
                replies_of(events.take(i)),
            )
        },
        events[i] == EventView::Looked(true) ==> i == events.len() - 1,
{
    let before = events.take(i);
    let with = events.take(i + 1);
    lemma_first_events(format, total, events, i);
    lemma_turns(format, total, before);
    let step = step_now(format, total, before);
    assert(events[i] is Looked ==> step is Look);
    assert(events[i] is Replied ==> step is Ask);
    if step is Ask {
        lemma_ask_holds_audio(format, total, before);
        assert(before.last() == events[i - 1]);
    }
    if events[i] == EventView::Looked(true) && i + 1 < events.len() {
        assert(step_now(format, total, with) is Over);
        lemma_first_events(format, total, events, i + 1);
    }
}

proof fn lemma_ask_holds_audio(format: Seq<char>, total: int, events: Seq<EventView>)
    requires
        total > 0,
        can_happen(format, total, events),
        step_now(format, total, events) is Ask,
    ensures
        step_now(format, total, events)->Ask_audio == audio_of(replies_of(events)),
{
    lemma_step_tells(format, total, events);
}

/// The first of the events that can be met with can be met with, and so can the one behind them.
proof fn lemma_first_events(format: Seq<char>, total: int, events: Seq<EventView>, i: int)
    requires
        can_happen(format, total, events),
        0 <= i < events.len(),
    ensures
        can_happen(format, total, events.take(i)),
        can_meet(step_now(format, total, events.take(i)), events[i]),
        step_now(format, total, events.take(i + 1)) == step_after(
            format,
            total,
            step_now(format, total, events.take(i)),
            events[i],
        ),
    decreases events.len(),
{
    let before = events.drop_last();
    if i < before.len() {
        lemma_first_events(format, total, before, i);
        assert(before.take(i) == events.take(i));
        assert(before.take(i + 1) == events.take(i + 1));
    } else {
        assert(events.take(i) == before);
        assert(events.take(i + 1) == events);
    }
}

/// How many events there were tells what is done next, and what the last of them was.
proof fn lemma_turns(format: Seq<char>, total: int, events: Seq<EventView>)
    requires
        total > 0,
        can_happen(format, total, events),
    ensures
        step_now(format, total, events) is Look ==> events.len() == 2 * replies_of(events).len(),
        step_now(format, total, events) is Ask ==> events.len() == 2 * replies_of(events).len() + 1
            && events.last() == EventView::Looked(false),
    decreases events.len(),
{
    if events.len() > 0 {
        lemma_turns(format, total, events.drop_last());
    }
}

#[verifier::rlimit(50)]
proof fn lemma_events_go_on<F: FnMut(&str) -> Result<Vec<u8>, String>>(
    synthesize: F,
    requests: Seq<Seq<char>>,
    cancel: Option<&Arc<AtomicBool>>,
    events: Seq<EventView>,
    event: EventView,
)
    requires
        all_looked(cancel, looks_of(events)),
        all_replied(synthesize, requests, replies_of(events)),
        match event {
            EventView::Looked(up) => look_gives(cancel, up),
            EventView::Replied(reply) => replies_of(events).len() < requests.len() && replied(
                synthesize,
                requests[replies_of(events).len() as int],
                reply,
            ),
        },
    ensures
        events.push(event).drop_last() == events,
        all_looked(cancel, looks_of(events.push(event))),
        all_replied(synthesize, requests, replies_of(events.push(event))),
{
    let more = events.push(event);
    assert(more.drop_last() == events);
    let looks = looks_of(events);
    let replies = replies_of(events);
    assert forall|i: int| 0 <= i < looks_of(more).len() implies look_gives(
        cancel,
        #[trigger] looks_of(more)[i],
    ) by {
        if i < looks.len() {
            assert(looks_of(more)[i] == looks[i]);
        }
    }
    assert forall|i: int| 0 <= i < replies_of(more).len() implies replied(
        synthesize,
        requests[i],
        #[trigger] replies_of(more)[i],
    ) by {
        if i < replies.len() {
            assert(replies_of(more)[i] == replies[i]);
        }
    }
}

/// How many events are at most to come.
spec fn events_to_come(step: ChapterStep, total: int) -> int {
    match step {
        ChapterStep::Look { audio } => 2 * (total - audio@.len()),
        ChapterStep::Ask { audio } => 2 * (total - audio@.len()) - 1,
        ChapterStep::Over(_) => 0,
    }
}

/// Has the requests of a chapter spoken one after the other, and joins what comes back. A single
/// request is answered as the service answers it; of several, the first that brings no audio ends
/// the work, and before each it is looked whether the work was called off, which ends it too. What
/// is done next is worked out by `next_chapter_step`. The contract speaks of what each look and each
/// request gave, in their order; it does not speak of time: not that a look is made at its very
/// moment, nor that the service is asked no more often than it is answered for.
#[verifier::rlimit(50)]
pub fn synthesize_tts_chunks<F: FnMut(&str) -> Result<Vec<u8>, String>>(
    chunks: Vec<String>,
    audio_format: &str,
    synthesize: F,
    cancel: Option<&Arc<AtomicBool>>,
) -> (r: Result<Vec<u8>, String>)
    requires
        forall|t: &str| call_requires(synthesize, (t,)),
    ensures
        chunks@.len() == 0 ==> reply_view(r) == Ok::<Seq<u8>, Seq<char>>(Seq::empty()),
        chunks@.len() == 1 ==> replied(synthesize, chunks@[0]@, reply_view(r)),
        chunks@.len() > 1 ==> exists|events: Seq<EventView>| #[trigger]
            comes_of(r, synthesize, texts(chunks@), audio_format@, cancel, events),
{
    let mut service = synthesize;
    if chunks.len() == 0 {
        return Ok(Vec::new());
    }
    if chunks.len() == 1 {
        let asked: &str = chunks[0].as_str();
        let r: Result<Vec<u8>, String> = service(asked);
        assert(answers(synthesize, asked, r));
        return r;
    }
    let total: usize = chunks.len();
    let ghost requests = texts(chunks@);
    let ghost mut events: Seq<EventView> = Seq::empty();
    let mut step: ChapterStep = ChapterStep::Look { audio: Vec::new() };
    assert(step_view(step) =~= step_now(audio_format@, total as int, events));
    loop
        invariant
            total == chunks@.len(),
            total > 1,
            requests == texts(chunks@),
            service == synthesize,
            forall|t: &str| call_requires(synthesize, (t,)),
            requests_are_left(step_view(step), total as int),
            step_view(step) == step_now(audio_format@, total as int, events),
            can_happen(audio_format@, total as int, events),
            all_looked(cancel, looks_of(events)),
            all_replied(synthesize, requests, replies_of(events)),
        decreases events_to_come(step, total as int),
    {
        proof {
            lemma_step_tells(audio_format@, total as int, events);
        }
        match step {
            ChapterStep::Look { audio } => {
                let event = ChapterEvent::Looked(tts_cancelled(cancel));
                proof {
                    lemma_events_go_on(synthesize, requests, cancel, events, event_view(event));
                    events = events.push(event_view(event));
                }
                step = next_chapter_step(audio_format, total, ChapterStep::Look { audio }, event);
            },
            ChapterStep::Ask { audio } => {
                let asked: &str = chunks[audio.len()].as_str();
                let reply: Result<Vec<u8>, String> = service(asked);
                assert(answers(synthesize, asked, reply));
                assert(requests[audio@.len() as int] == asked@);
                let event = ChapterEvent::Replied(reply);
                proof {
                    lemma_events_go_on(synthesize, requests, cancel, events, event_view(event));
                    events = events.push(event_view(event));
                }
                step = next_chapter_step(audio_format, total, ChapterStep::Ask { audio }, event);
            },
            ChapterStep::Over(r) => {
                assert(comes_of(r, synthesize, requests, audio_format@, cancel, events));
                return r;
            },
        }
    }
}

/// Where the looks give that the work was called off from the one before the request behind the
/// first `k` on, a chapter of several requests ends there: where these `k` were answered with audio,
/// there is no further answer, and no audio. At which moment a look is made is not stated.
pub proof fn law_call_off_ends_the_chapter(
    format: Seq<char>,
    total: int,
    replies: Seq<Reply>,
    looks: Seq<bool>,
    k: int,
)
    requires
        0 <= k < total,
        ends_in_time(total, replies, looks),
        forall|i: int| 0 <= i < looks.len() ==> (#[trigger] looks[i] <==> i >= k),
        forall|i: int|
            0 <= i < replies.len() && i < k ==> (#[trigger] replies[i] matches Ok(b) && b.len() > 0),
    ensures
        replies.len() == k,
        looks.len() == k + 1,
        spoken_reply(format, total, replies) == Err::<Seq<u8>, Seq<char>>("已取消"@),
{
    if replies.len() > k {
        assert(!looks[k]);
    }
    assert(all_good(replies));
    assert(looks.last() == looks[looks.len() - 1]);
}

/// A chapter of several requests has audio only where each of them was answered with audio.
#[verifier::rlimit(50)]
pub proof fn law_audio_needs_every_reply(format: Seq<char>, total: int, replies: Seq<Reply>)
    requires
        replies.len() <= total,
        spoken_reply(format, total, replies) is Ok,
        replies.len() > 0 ==> all_good(replies.drop_last()),
    ensures
        replies.len() == total,
        all_good(replies),
{
    if !all_good(replies) {
        let last = replies.last();
        assert(!(last matches Ok(b) && b.len() > 0)) by {
            if last matches Ok(b) && b.len() > 0 {
                assert forall|i: int| 0 <= i < replies.len() implies (
                #[trigger] replies[i] matches Ok(b) && b.len() > 0) by {
                    if i < replies.len() - 1 {
                        assert(replies.drop_last()[i] == replies[i]);
                    }
                }
            }
        }
    }
}

/// WAV answers with the same audio parameters make up one WAV file, which has these parameters and
/// the samples of all answers in order, as long as a WAV file can state its length.
pub proof fn law_wav_chapter_holds_all_samples(format: Seq<char>, replies: Seq<Reply>, fmt: Seq<u8>)
    requires
        is_wav_format(format),
        replies.len() > 1,
        all_good(replies),
        all_have_format(audio_of(replies), fmt),
        riff_size(fmt, all_samples(audio_of(replies))) <= u32::MAX,
        8 + riff_size(fmt, all_samples(audio_of(replies))) <= usize::MAX,
    ensures
        ({
            let r = spoken_reply(format, replies.len() as int, replies);
            r is Ok && wav_parts(r->Ok_0) == Ok::<_, Seq<char>>(
                (fmt, all_samples(audio_of(replies))),
            )
        }),
{
    let files = audio_of(replies);
    assert(wav_parts(files[0]) matches Ok(parts) && parts.0 == fmt);
    law_wav_files_join_when_formats_agree(files);
    lemma_gathered_when_formats_agree(files, fmt);
    law_header_states_length(fmt, all_samples(files));
    law_joined_wav_holds_all_samples(files);
}

/// Answers of any other format are put one after the other.
pub proof fn law_stream_chapter_is_one_after_the_other(format: Seq<char>, replies: Seq<Reply>)
    requires
        !is_wav_format(format),
        replies.len() > 1,
        all_good(replies),
        one_after_the_other(audio_of(replies)).len() <= usize::MAX,
    ensures
        spoken_reply(format, replies.len() as int, replies) == Ok::<Seq<u8>, Seq<char>>(
            one_after_the_other(audio_of(replies)),
        ),
{
}

proof fn lemma_one_after_the_other_is_flat(parts: Seq<Seq<u8>>)
    ensures
        one_after_the_other(parts) == parts.flatten(),
    decreases parts.len(),
{
    parts.lemma_flatten_and_flatten_alt_are_equivalent();
    if parts.len() > 0 {
        lemma_one_after_the_other_is_flat(parts.drop_last());
        parts.drop_last().lemma_flatten_and_flatten_alt_are_equivalent();
    }
}

/// How many bytes the first `k` of the pieces have.
pub open spec fn len_before(parts: Seq<Seq<u8>>, k: int) -> int
    decreases k,
{
    if k <= 0 {
        0
    } else {
        len_before(parts, k - 1) + parts[k - 1].len()
    }
}

proof fn lemma_flat_places(parts: Seq<Seq<u8>>, k: int)
    requires
        0 <= k <= parts.len(),
    ensures
        parts.take(k).flatten().len() == len_before(parts, k),
        parts.flatten() == parts.take(k).flatten() + parts.skip(k).flatten(),
        k < parts.len() ==> parts.skip(k).flatten() == parts[k] + parts.skip(k + 1).flatten(),
    decreases k,
{
    assert(parts.take(k) + parts.skip(k) == parts);
    vstd::seq_lib::lemma_flatten_concat(parts.take(k), parts.skip(k));
    if k > 0 {
        lemma_flat_places(parts, k - 1);
        parts.take(k - 1).lemma_flatten_push(parts[k - 1]);
        assert(parts.take(k) == parts.take(k - 1).push(parts[k - 1]));
    } else {
        assert(parts.take(0).flatten() == Seq::<u8>::empty());
    }
    if k < parts.len() {
        assert(parts.skip(k).first() == parts[k]);
        assert(parts.skip(k).drop_first() == parts.skip(k + 1));
    }
}

/// Nothing of pieces of a stream is lost, doubled or moved where they are joined: the whole is as
/// long as all of them together, and each byte of each piece stands behind those of the pieces
/// before it. No piece gives nothing, and one piece is the whole.
#[verifier::rlimit(50)]
pub proof fn law_stream_pieces_are_joined_whole(
    format: Seq<char>,
    parts: Seq<Seq<u8>>,
    k: int,
    j: int,
)
    requires
        !is_wav_format(format),
        0 <= k < parts.len(),
        0 <= j < parts[k].len(),
    ensures
        joined_audio(format, parts) is Ok <==> parts.len() == 1 || len_before(
            parts,
            parts.len() as int,
        ) <= usize::MAX,
        joined_audio(format, parts) matches Ok(whole) ==> {
            &&& whole == parts.flatten()
            &&& whole.len() == len_before(parts, parts.len() as int)
            &&& whole[len_before(parts, k) + j] == parts[k][j]
        },
        joined_audio(format, Seq::empty()) == Ok::<Seq<u8>, Seq<char>>(Seq::empty()),
{
    lemma_one_after_the_other_is_flat(parts);
    lemma_flat_places(parts, k);
    lemma_flat_places(parts, parts.len() as int);
    assert(parts.take(parts.len() as int) == parts);
    if parts.len() == 1 {
        parts.lemma_flatten_one_element();
        assert(parts[0] == parts.first());
    }
    assert(parts.flatten()[len_before(parts, k) + j] == parts[k][j]);
}

/// Pieces of WAV audio are joined as WAV files, but for a single one, which is the whole.
pub proof fn law_wav_pieces_are_joined_as_files(format: Seq<char>, parts: Seq<Seq<u8>>)
    requires
        is_wav_format(format),
        parts.len() > 0,
    ensures
        parts.len() == 1 ==> joined_audio(format, parts) == Ok::<Seq<u8>, Seq<char>>(parts[0]),
        parts.len() > 1 ==> joined_audio(format, parts) == joined_wav(parts),
{
}

/// An answer with audio is taken as it is, however long; one without is not taken, and the message
/// names the request.
pub proof fn law_answers_are_taken_whole(number: int, total: int, bytes: Seq<u8>, e: Seq<char>)
    ensures
        bytes.len() > 0 ==> checked_reply(number, total, Ok(bytes)) == Ok::<Seq<u8>, Seq<char>>(
            bytes,
        ),
        checked_reply(number, total, Ok(Seq::empty())) == Err::<Seq<u8>, Seq<char>>(
            "第 "@ + decimal(number as nat) + "/"@ + decimal(total as nat) + " 段"@ + "未返回音频"@,
        ),
        checked_reply(number, total, Err(e)) == Err::<Seq<u8>, Seq<char>>(
            "第 "@ + decimal(number as nat) + "/"@ + decimal(total as nat) + " 段"@ + "合成失败："@
                + e,
        ),
{
}

/// Whether each request was answered with audio by `synthesize`, and these are the answers.
pub open spec fn all_said<F: FnMut(&str) -> Result<Vec<u8>, String>>(
    synthesize: F,
    requests: Seq<Seq<char>>,
    said: Seq<Seq<u8>>,
) -> bool {
    &&& said.len() == requests.len()
    &&& forall|i: int|
        0 <= i < said.len() ==> was_said(synthesize, requests[i], #[trigger] said[i])
}

/// Whether `synthesize` answers the text with these bytes, of which there are some.
pub open spec fn was_said<F: FnMut(&str) -> Result<Vec<u8>, String>>(
    synthesize: F,
    text: Seq<char>,
    bytes: Seq<u8>,
) -> bool {
    bytes.len() > 0 && exists|t: &str, x: Result<Vec<u8>, String>| #[trigger]
        call_ensures(synthesize, (t,), x) && t@ == text && (x matches Ok(b) && b@ == bytes)
}

proof fn lemma_said<F: FnMut(&str) -> Result<Vec<u8>, String>>(
    synthesize: F,
    text: Seq<char>,
    reply: Reply,
)
    requires
        replied(synthesize, text, reply),
        reply matches Ok(b) && b.len() > 0,
    ensures
        was_said(synthesize, text, reply->Ok_0),
{
    let (t, x) = choose|t: &str, x: Result<Vec<u8>, String>| #[trigger]
        answers(synthesize, t, x) && t@ == text && reply_view(x) == reply;
    assert(call_ensures(synthesize, (t,), x));
}

/// The audio of a chapter of several requests is made of what the service answered to each of them:
/// to the first request the first answer, and so on to the last. Of a stream it is these answers one
/// after the other; of WAV audio it is the file that they are joined to.
#[verifier::rlimit(50)]
pub proof fn law_chapter_is_what_the_service_said<F: FnMut(&str) -> Result<Vec<u8>, String>>(
    r: Result<Vec<u8>, String>,
    synthesize: F,
    requests: Seq<Seq<char>>,
    format: Seq<char>,
    cancel: Option<&Arc<AtomicBool>>,
    events: Seq<EventView>,
)
    requires
        requests.len() > 1,
        comes_of(r, synthesize, requests, format, cancel, events),
        r is Ok,
    ensures
        exists|said: Seq<Seq<u8>>| #[trigger]
            all_said(synthesize, requests, said) && (if is_wav_format(format) {
                joined_wav(said) == Ok::<Seq<u8>, Seq<char>>(r->Ok_0@)
            } else {
                r->Ok_0@ == said.flatten()
            }),
{
    let total = requests.len() as int;
    let replies = replies_of(events);
    law_course_ends_in_time(format, total, events);
    law_audio_needs_every_reply(format, total, replies);
    let said = Seq::new(replies.len(), |i: int| replies[i]->Ok_0);
    assert(said == audio_of(replies));
    assert forall|i: int| 0 <= i < said.len() implies was_said(
        synthesize,
        requests[i],
        #[trigger] said[i],
    ) by {
        assert(replied(synthesize, requests[i], replies[i]));
        assert(replies[i] matches Ok(b) && b.len() > 0);
        lemma_said(synthesize, requests[i], replies[i]);
    }
    lemma_one_after_the_other_is_flat(said);
    assert(all_said(synthesize, requests, said));
}

/// A chapter of several requests has no audio only for a reason: a look gave that the work was
/// called off; or the last answer brought none, all before it having brought some; or all did, and
/// they cannot be joined.
#[verifier::rlimit(50)]
pub proof fn law_chapter_fails_for_a_reason<F: FnMut(&str) -> Result<Vec<u8>, String>>(
    r: Result<Vec<u8>, String>,
    synthesize: F,
    requests: Seq<Seq<char>>,
    format: Seq<char>,
    cancel: Option<&Arc<AtomicBool>>,
    events: Seq<EventView>,
)
    requires
        requests.len() > 1,
        comes_of(r, synthesize, requests, format, cancel, events),
        r is Err,
    ensures
        ({
            let replies = replies_of(events);
            let looks = looks_of(events);
            let n = replies.len() as int;
            ||| looks.len() == n + 1 && n < requests.len() && looks.last() && look_gives(
                cancel,
                true,
            ) && r->Err_0@ == "已取消"@
            ||| 0 < n && all_good(replies.drop_last()) && !all_good(replies) && replied(
                synthesize,
                requests[n - 1],
                replies.last(),
            ) && Err::<Seq<u8>, Seq<char>>(r->Err_0@) == checked_reply(
                n,
                requests.len() as int,
                replies.last(),
            )
            ||| n == requests.len() && all_good(replies) && (joined_audio(
                format,
                Seq::new(replies.len(), |i: int| replies[i]->Ok_0),
            ) matches Err(e) && r->Err_0@ == "音频拼接失败："@ + e)
        }),
{
    let total = requests.len() as int;
    let replies = replies_of(events);
    let looks = looks_of(events);
    law_course_ends_in_time(format, total, events);
    assert(Seq::new(replies.len(), |i: int| replies[i]->Ok_0) == audio_of(replies));
    if all_good(replies) && replies.len() < total {
        assert(look_gives(cancel, looks[looks.len() - 1]));
    } else if !all_good(replies) {
        assert(replies.len() > 0);
        assert(replied(synthesize, requests[replies.len() - 1], replies[replies.len() - 1]));
    }
}

/// A look gives what a relaxed load of the flag gives; where there is no flag, it gives that the
/// work goes on.
pub proof fn law_looks_load_the_flag(flag: &Arc<AtomicBool>, up: bool)
    ensures
        look_gives(Some(flag), up) <==> call_ensures(
            AtomicBool::load,
            (&**flag, std::sync::atomic::Ordering::Relaxed),
            up,
        ),
        look_gives(None, up) <==> !up,
{
}

/// An answer, a step and an event are taken with all that they hold.
pub proof fn law_values_are_taken_whole(bytes: Vec<u8>, e: String, audio: Vec<Vec<u8>>, up: bool)
    ensures
        reply_view(Ok(bytes)) == Ok::<Seq<u8>, Seq<char>>(bytes@),
        reply_view(Err(e)) == Err::<Seq<u8>, Seq<char>>(e@),
        step_view(ChapterStep::Look { audio }) == (StepView::Look { audio: contents(audio@) }),
        step_view(ChapterStep::Ask { audio }) == (StepView::Ask { audio: contents(audio@) }),
        step_view(ChapterStep::Over(Ok(bytes))) == StepView::Over(Ok(bytes@)),
        step_view(ChapterStep::Over(Err(e))) == StepView::Over(Err(e@)),
        event_view(ChapterEvent::Looked(up)) == EventView::Looked(up),
        event_view(ChapterEvent::Replied(Ok(bytes))) == EventView::Replied(Ok(bytes@)),
        event_view(ChapterEvent::Replied(Err(e))) == EventView::Replied(Err(e@)),
{
}

/// The answers and the looks among the events are all of them, in their order.
pub proof fn law_events_are_answers_and_looks(events: Seq<EventView>, reply: Reply, up: bool)
    ensures
        replies_of(Seq::empty()).len() == 0,
        looks_of(Seq::empty()).len() == 0,
        replies_of(events.push(EventView::Replied(reply))) == replies_of(events).push(reply),
        replies_of(events.push(EventView::Looked(up))) == replies_of(events),
        looks_of(events.push(EventView::Looked(up))) == looks_of(events).push(up),
        looks_of(events.push(EventView::Replied(reply))) == looks_of(events),
{
    assert(events.push(EventView::Replied(reply)).drop_last() == events);
    assert(events.push(EventView::Looked(up)).drop_last() == events);
}

/// An answer to a text is one that the service gives for that very text.
pub proof fn law_answers_come_from_the_service<F: FnMut(&str) -> Result<Vec<u8>, String>>(
    synthesize: F,
    text: Seq<char>,
    reply: Reply,
)
    requires
        replied(synthesize, text, reply),
    ensures
        exists|t: &str, x: Result<Vec<u8>, String>| #[trigger]
            call_ensures(synthesize, (t,), x) && t@ == text && (match x {
                Ok(bytes) => reply == Ok::<Seq<u8>, Seq<char>>(bytes@),
                Err(e) => reply == Err::<Seq<u8>, Seq<char>>(e@),
            }),
{
    let (t, x) = choose|t: &str, x: Result<Vec<u8>, String>| #[trigger]
        answers(synthesize, t, x) && t@ == text && reply_view(x) == reply;
    assert(call_ensures(synthesize, (t,), x));
}

} // verus!
