use audiobook::synthesis::{
    check_call_off, check_reply, concatenate_audio_chunks, join_replies, next_chapter_step,
    synthesize_tts_chunks, tts_cancelled, ChapterEvent, ChapterStep,
};
use audiobook::wav::{build_wav, extract_wav_parts};
use std::sync::atomic::{AtomicBool, Ordering};
use std::sync::Arc;

const MP3: &str = "audio-24khz-48kbitrate-mono-mp3";
const WAV: &str = "riff-24khz-16bit-mono-pcm";

fn wav_bytes(data: &[u8]) -> Vec<u8> {
    let fmt: [u8; 16] = [
        1, 0, // PCM
        1, 0, // mono
        0xC0, 0x5D, 0, 0, // 24000 Hz
        0x80, 0xBB, 0, 0, // 48000 bytes/sec
        2, 0, // block align
        16, 0, // bits/sample
    ];
    build_wav(&fmt, data).unwrap()
}

fn strings(texts: &[&str]) -> Vec<String> {
    texts.iter().map(|t| t.to_string()).collect()
}

#[test]
fn concatenate_audio_chunks_concatenates_mp3_like_streams() {
    let bytes = concatenate_audio_chunks(
        "audio-24khz-48kbitrate-mono-mp3",
        vec![b"aaa".to_vec(), b"bbb".to_vec(), b"ccc".to_vec()],
    )
    .unwrap();

    assert_eq!(bytes, b"aaabbbccc");
}

#[test]
fn concatenate_audio_chunks_rewrites_single_wav_header() {
    let bytes = concatenate_audio_chunks(
        "riff-24khz-16bit-mono-pcm",
        vec![wav_bytes(&[1, 2, 3, 4]), wav_bytes(&[5, 6])],
    )
    .unwrap();
    let parts = extract_wav_parts(&bytes).unwrap();

    assert_eq!(parts.data, &[1, 2, 3, 4, 5, 6]);
    assert_eq!(bytes.windows(4).filter(|w| *w == b"RIFF").count(), 1);
}

#[test]
fn none_and_one_piece_of_audio_stay_as_they_are() {
    assert_eq!(concatenate_audio_chunks(WAV, vec![]), Ok(vec![]));
    assert_eq!(concatenate_audio_chunks(WAV, vec![vec![1, 2]]), Ok(vec![1, 2]));
    assert_eq!(
        concatenate_audio_chunks(WAV, vec![vec![1], vec![2]]),
        Err("第 1 段 WAV 无效：文件头过短".to_string())
    );
}

#[test]
fn the_flag_is_looked_at() {
    let flag = Arc::new(AtomicBool::new(false));
    assert!(!tts_cancelled(None));
    assert!(!tts_cancelled(Some(&flag)));
    flag.store(true, Ordering::Relaxed);
    assert!(tts_cancelled(Some(&flag)));
}

#[test]
fn replies_are_checked() {
    assert_eq!(check_reply(2, 3, Ok(vec![1])), Ok(vec![1]));
    assert_eq!(check_reply(2, 3, Ok(vec![])), Err("第 2/3 段未返回音频".to_string()));
    assert_eq!(
        check_reply(2, 3, Err("断线".to_string())),
        Err("第 2/3 段合成失败：断线".to_string())
    );
    assert_eq!(join_replies(MP3, vec![vec![1], vec![2]]), Ok(vec![1, 2]));
    assert_eq!(
        join_replies(WAV, vec![vec![1], vec![2]]),
        Err("音频拼接失败：第 1 段 WAV 无效：文件头过短".to_string())
    );
}

#[test]
fn requests_are_spoken_in_order() {
    let mut asked: Vec<String> = Vec::new();
    let r = synthesize_tts_chunks(
        strings(&["甲", "乙", "丙"]),
        MP3,
        |text: &str| {
            asked.push(text.to_string());
            Ok(text.as_bytes().to_vec())
        },
        None,
    );
    assert_eq!(r, Ok("甲乙丙".as_bytes().to_vec()));
    assert_eq!(asked, strings(&["甲", "乙", "丙"]));
}

#[test]
fn one_request_is_answered_as_the_service_answers() {
    let answer = |_: &str| Err("断线".to_string());
    assert_eq!(synthesize_tts_chunks(strings(&["甲"]), MP3, answer, None), Err("断线".to_string()));
    assert_eq!(synthesize_tts_chunks(strings(&["甲"]), MP3, |_: &str| Ok(vec![]), None), Ok(vec![]));
    assert_eq!(synthesize_tts_chunks(vec![], MP3, answer, None), Ok(vec![]));
}

#[test]
fn the_first_reply_without_audio_ends_the_work() {
    let mut count = 0;
    let r = synthesize_tts_chunks(
        strings(&["甲", "乙", "丙"]),
        MP3,
        |_: &str| {
            count += 1;
            if count == 2 {
                Ok(vec![])
            } else {
                Ok(vec![1])
            }
        },
        None,
    );
    assert_eq!(r, Err("第 2/3 段未返回音频".to_string()));
    assert_eq!(count, 2);
}

#[test]
fn a_wav_chapter_holds_all_samples() {
    let mut next = 0u8;
    let r = synthesize_tts_chunks(
        strings(&["甲", "乙"]),
        WAV,
        |_: &str| {
            next += 1;
            Ok(wav_bytes(&[next, next]))
        },
        None,
    )
    .unwrap();
    assert_eq!(extract_wav_parts(&r).unwrap().data, &[1, 1, 2, 2]);
}

#[test]
fn work_is_called_off_between_requests() {
    let flag = Arc::new(AtomicBool::new(false));
    let raised = flag.clone();
    let mut count = 0;
    let r = synthesize_tts_chunks(
        strings(&["甲", "乙", "丙"]),
        MP3,
        |_: &str| {
            count += 1;
            raised.store(true, Ordering::Relaxed);
            Ok(vec![1])
        },
        Some(&flag),
    );
    assert_eq!(r, Err("已取消".to_string()));
    assert_eq!(count, 1);
}

#[test]
fn work_that_was_called_off_makes_no_request() {
    let flag = Arc::new(AtomicBool::new(true));
    let mut count = 0;
    let r = synthesize_tts_chunks(
        strings(&["甲", "乙"]),
        MP3,
        |_: &str| {
            count += 1;
            Ok(vec![1])
        },
        Some(&flag),
    );
    assert_eq!(r, Err("已取消".to_string()));
    assert_eq!(count, 0);
    assert!(flag.load(Ordering::Relaxed));
    assert_eq!(check_call_off(true), Err("已取消".to_string()));
    assert_eq!(check_call_off(false), Ok(()));
}

#[test]
fn a_call_off_behind_the_last_request_comes_too_late() {
    let flag = Arc::new(AtomicBool::new(false));
    let raised = flag.clone();
    let mut count = 0;
    let r = synthesize_tts_chunks(
        strings(&["甲", "乙"]),
        MP3,
        |_: &str| {
            count += 1;
            raised.store(count == 2, Ordering::Relaxed);
            Ok(vec![count])
        },
        Some(&flag),
    );
    assert_eq!(r, Ok(vec![1, 2]));
}

fn looking(audio: &[&[u8]]) -> ChapterStep {
    ChapterStep::Look { audio: audio.iter().map(|a| a.to_vec()).collect() }
}

fn asking(audio: &[&[u8]]) -> ChapterStep {
    ChapterStep::Ask { audio: audio.iter().map(|a| a.to_vec()).collect() }
}

#[test]
fn a_request_follows_a_look() {
    match next_chapter_step(MP3, 2, looking(&[&[1]]), ChapterEvent::Looked(false)) {
        ChapterStep::Ask { audio } => assert_eq!(audio, [[1]]),
        _ => panic!("no request"),
    }
    match next_chapter_step(MP3, 2, looking(&[&[1]]), ChapterEvent::Looked(true)) {
        ChapterStep::Over(r) => assert_eq!(r, Err("已取消".to_string())),
        _ => panic!("not over"),
    }
}

#[test]
fn a_look_follows_an_answer_while_requests_are_left() {
    match next_chapter_step(MP3, 3, asking(&[&[1]]), ChapterEvent::Replied(Ok(vec![2]))) {
        ChapterStep::Look { audio } => assert_eq!(audio, [[1], [2]]),
        _ => panic!("no look"),
    }
    match next_chapter_step(MP3, 2, asking(&[&[1]]), ChapterEvent::Replied(Ok(vec![2]))) {
        ChapterStep::Over(r) => assert_eq!(r, Ok(vec![1, 2])),
        _ => panic!("not over"),
    }
    match next_chapter_step(MP3, 3, asking(&[&[1]]), ChapterEvent::Replied(Ok(vec![]))) {
        ChapterStep::Over(r) => assert_eq!(r, Err("第 2/3 段未返回音频".to_string())),
        _ => panic!("not over"),
    }
}

#[test]
fn the_flag_is_looked_at_anew_before_each_request() {
    for k in 1..4 {
        let flag = Arc::new(AtomicBool::new(false));
        let raised = flag.clone();
        let mut count = 0;
        let r = synthesize_tts_chunks(
            strings(&["甲", "乙", "丙", "丁"]),
            MP3,
            |_: &str| {
                count += 1;
                raised.store(count == k, Ordering::Relaxed);
                Ok(vec![1])
            },
            Some(&flag),
        );
        assert_eq!(r, Err("已取消".to_string()));
        assert_eq!(count, k);
    }
}
