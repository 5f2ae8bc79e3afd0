use audiobook::plan::{
    audio_dir_name, book_name_or_id, chapter_file_name, chapter_key, chapter_text,
    existing_audio_is_reusable, partial_file_name, plan_audiobook, ChapterEntry, FieldValue, FileMeta,
    StoredChapter,
};
use audiobook::worker::job_requests;
use std::cell::RefCell;

fn text(s: &str) -> Option<FieldValue> {
    Some(FieldValue::Text(s.to_string()))
}

fn entry(id: Option<FieldValue>, title: Option<FieldValue>) -> ChapterEntry {
    ChapterEntry { id, title }
}

fn stored(title: &str, content: Option<&str>) -> Option<StoredChapter> {
    Some(StoredChapter { title: title.to_string(), content: content.map(|c| c.to_string()) })
}

#[test]
fn existing_audio_is_reusable_requires_non_empty_file() {
    let missing = None;
    let empty = Some(FileMeta { is_file: true, len: 0 });
    let audio = Some(FileMeta { is_file: true, len: 5 });
    let dir = Some(FileMeta { is_file: false, len: 4096 });

    assert!(!existing_audio_is_reusable(missing));
    assert!(!existing_audio_is_reusable(empty));
    assert!(!existing_audio_is_reusable(dir));
    assert!(existing_audio_is_reusable(audio));
}

#[test]
fn books_without_a_name_go_by_their_identifier() {
    assert_eq!(book_name_or_id("书", "42"), "书");
    assert_eq!(book_name_or_id(" \u{3000}", "42"), "42");
    assert_eq!(book_name_or_id(" 书 ", "42"), " 书 ");
    assert_eq!(audio_dir_name("书"), "书_audio");
}

#[test]
fn keys_are_strings_or_numbers() {
    assert_eq!(chapter_key(&entry(text("a1"), None)), Some("a1".to_string()));
    let number = Some(FieldValue::Number(u64::MAX));
    assert_eq!(chapter_key(&entry(number, None)), Some(u64::MAX.to_string()));
    assert_eq!(chapter_key(&entry(Some(FieldValue::Other), None)), None);
    assert_eq!(chapter_key(&entry(None, None)), None);
}

#[test]
fn titles_are_chosen() {
    let e = entry(text("1"), text("目录标题"));
    let spoken = chapter_text(&e, &stored("存储标题", Some("正文"))).unwrap();
    assert_eq!((spoken.title.as_str(), spoken.text.as_str()), ("存储标题", "存储标题。\n正文"));
    let spoken = chapter_text(&e, &stored(" ", Some("正文"))).unwrap();
    assert_eq!(spoken.title, "目录标题");
    let bare = entry(text("1"), Some(FieldValue::Number(3)));
    assert_eq!(chapter_text(&bare, &stored("", Some("正文"))).unwrap().title, "章节");
    let empty = entry(text("1"), text(""));
    assert_eq!(chapter_text(&empty, &stored("", Some("正文"))).unwrap().title, "");
}

#[test]
fn chapters_without_text_are_left_out() {
    let e = entry(text("1"), text("题"));
    assert!(chapter_text(&e, &None).is_none());
    assert!(chapter_text(&e, &stored("题", None)).is_none());
    assert!(chapter_text(&e, &stored("题", Some(" \n\u{3000}"))).is_none());
    assert!(chapter_text(&e, &stored("<a", Some("b>"))).is_none());
}

#[test]
fn files_are_named_by_number_and_title() {
    assert_eq!(chapter_file_name(1, "章节标题", "mp3"), "0001-章节标题.mp3");
    assert_eq!(chapter_file_name(12345, "x.y", "wav"), "12345-x.y.wav");
    assert_eq!(partial_file_name("0001-x.mp3"), "0001-x.mp3.partial");
}

#[test]
fn chapters_with_one_title_have_different_files() {
    assert_ne!(chapter_file_name(1, "序", "mp3"), chapter_file_name(2, "序", "mp3"));
    assert_ne!(chapter_file_name(1, "1-序", "mp3"), chapter_file_name(11, "序", "mp3"));
    assert_ne!(
        partial_file_name(&chapter_file_name(1, "序", "mp3")),
        chapter_file_name(1, "序", "mp3")
    );
}

#[test]
fn a_book_is_planned() {
    let chapters = [
        entry(text("a"), None),
        entry(Some(FieldValue::Number(7)), text("七")),
        entry(None, text("没有编号")),
        entry(text("missing"), None),
        entry(text("blank"), None),
        entry(text("c"), None),
    ];
    let keys = RefCell::new(Vec::new());
    let files = RefCell::new(Vec::new());
    let plan = plan_audiobook(
        &chapters,
        "mp3",
        &|key: &str| {
            keys.borrow_mut().push(key.to_string());
            match key {
                "a" => stored("甲/乙", Some("一")),
                "7" => stored("", Some("二")),
                "blank" => stored("空", Some(" ")),
                "c" => stored("尾", Some("三")),
                _ => None,
            }
        },
        &|title: &str| title.replace('/', "_"),
        &|file: &str| {
            files.borrow_mut().push(file.to_string());
            if file == "0002-七.mp3" {
                Some(FileMeta { is_file: true, len: 9 })
            } else {
                None
            }
        },
    );
    assert_eq!(keys.into_inner(), ["a", "7", "missing", "blank", "c"]);
    assert_eq!(files.into_inner(), ["0001-甲_乙.mp3", "0002-七.mp3", "0006-尾.mp3"]);
    assert_eq!(plan.finished, ["0002-七.mp3.partial"]);
    assert_eq!(plan.jobs.len(), 2);
    assert_eq!(plan.jobs[0].idx, 1);
    assert_eq!(plan.jobs[0].title, "甲/乙");
    assert_eq!(plan.jobs[0].text, "甲/乙。\n一");
    assert_eq!(plan.jobs[0].file_name, "0001-甲_乙.mp3");
    assert_eq!(plan.jobs[0].tmp_name, "0001-甲_乙.mp3.partial");
    assert_eq!(plan.jobs[1].idx, 6);
    for job in &plan.jobs {
        assert_eq!(job_requests(job).0, [job.text.clone()]);
    }
    assert_eq!(plan.jobs[1].file_name, "0006-尾.mp3");
}
